//! The agent loop: the model is asked, the tools it calls are run and their
//! results fed back, for at most ten rounds; failed calls to the model are
//! retried with a growing delay.

use vstd::prelude::*;
use crate::api::{completed_view, CompletedToolCall};
use crate::app::{AgentEvent, Message, MessageRole, ToolCall};
use crate::config::Config;
use crate::text::{decimal, decimal_string};

verus! {

/// Rounds of model calls that one run may take.
pub const MAX_ITERATIONS: usize = 10;

/// `2` to the power `n`.
pub open spec fn pow2(n: nat) -> nat
    decreases n,
{
    if n == 0 { 1 } else { 2 * pow2((n - 1) as nat) }
}

/// The wait before retry number `attempt + 1`: the configured delay doubled
/// for each earlier attempt.
pub open spec fn retry_delay(delay_secs: u32, attempt: u32) -> nat {
    delay_secs as nat * pow2(attempt as nat)
}

/// Each retry waits twice as long as the one before.
pub proof fn retry_delay_doubles(delay_secs: u32, attempt: u32)
    requires
        attempt < u32::MAX,
    ensures
        retry_delay(delay_secs, (attempt + 1) as u32) == 2 * retry_delay(delay_secs, attempt),
{
    assert(pow2((attempt + 1) as nat) == 2 * pow2(attempt as nat));
    assert(delay_secs as nat * (2 * pow2(attempt as nat)) == 2 * (delay_secs as nat * pow2(attempt as nat))) by (nonlinear_arith);
}

/// The wait can be computed in `u32`: the power of two and the product
/// both fit.
pub open spec fn delay_fits(delay_secs: u32, attempt: u32) -> bool {
    attempt < 32 && retry_delay(delay_secs, attempt) <= u32::MAX
}

/// The note shown before a retry.
pub open spec fn retry_notice(delay: nat, attempt: nat, max_attempts: nat) -> Seq<char> {
    "\n[API call failed, retrying in "@ + decimal(delay) + "s (attempt "@ + decimal(attempt) + "/"@
        + decimal(max_attempts) + ")...]\n"@
}

/// The error that ends a run that used up its rounds.
pub open spec fn max_iterations_error() -> Seq<char> {
    "Agent reached max iterations (10) without completing the task."@
}

/// What an agent run is told.
pub enum AgentInput {
    /// The model answered; these are the tool calls it made (none when it
    /// is done).
    ApiOk(Vec<CompletedToolCall>),
    /// The call to the model failed.
    ApiErr(String),
    /// The current tool call ran and gave this result.
    ToolDone { result: String, is_error: bool },
}

/// What an agent run asks for next.
pub enum AgentAction {
    /// Call the model with the run's messages.
    CallApi,
    /// Wait this many seconds, then call the model with the run's messages.
    Retry { delay_secs: u32 },
    /// Run this tool.
    RunTool { name: String, arguments: String },
    /// The run is over.
    Stop,
}

/// An agent run: the conversation it sends, the round and attempt it is
/// at, and the tool calls of the current round.
pub struct AgentRun {
    pub messages: Vec<Message>,
    pub iteration: usize,
    pub attempt: u32,
    pub max_attempts: u32,
    pub retry_delay_secs: u32,
    pub last_error: String,
    pub calls: Vec<CompletedToolCall>,
    pub next_call: usize,
    pub finished: bool,
}

/// The event that ends a run: done, or an error.
pub open spec fn is_final_event(e: AgentEvent) -> bool {
    e is Done || e is Error
}

/// A tool call of the model as the conversation records it.
pub open spec fn recorded_call(c: CompletedToolCall, t: ToolCall) -> bool {
    t.id@ == c.id@ && t.name@ == c.name@ && t.arguments@ == c.arguments@
}

/// `m` is the agent message that records the tool calls `cs`.
pub open spec fn calls_message(m: Message, cs: Seq<CompletedToolCall>) -> bool {
    &&& m.role == MessageRole::Agent
    &&& m.content@ == Seq::<char>::empty()
    &&& m.tool_calls matches Some(ts) && ts@.len() == cs.len()
        && forall|i: int| 0 <= i < cs.len() ==> recorded_call(cs[i], #[trigger] ts@[i])
    &&& m.tool_call_id is None
    &&& !m.tool_result_error
}

/// `m` is the tool message that records result `result` of call `c`.
pub open spec fn result_message(m: Message, c: CompletedToolCall, result: Seq<char>, is_error: bool) -> bool {
    &&& m.role == MessageRole::Tool
    &&& m.content@ == result
    &&& m.tool_calls is None
    &&& m.tool_call_id matches Some(id) && id@ == c.id@
    &&& m.tool_result_error == is_error
}

/// `e` reports that call `c` ended with `result`.
pub open spec fn tool_end_event(e: AgentEvent, c: CompletedToolCall, result: Seq<char>, is_error: bool) -> bool {
    e matches AgentEvent::ToolCallEnd { id, name, arguments, result: r, is_error: err }
        && id@ == c.id@ && name@ == c.name@ && arguments@ == c.arguments@ && r@ == result && err == is_error
}

impl AgentRun {
    /// The run keeps its counters in range.
    pub open spec fn wf(&self) -> bool {
        &&& self.max_attempts >= 1
        &&& self.attempt < self.max_attempts
        &&& self.next_call <= self.calls@.len()
        &&& self.iteration <= MAX_ITERATIONS
        &&& !self.finished ==> self.iteration < MAX_ITERATIONS
    }

    /// Calls of the model that the run may still make, counting the one it
    /// waits for: none once finished, otherwise the attempts left in this
    /// round and all attempts of the rounds after it.
    pub open spec fn calls_left(&self) -> nat {
        if self.finished {
            0
        } else {
            ((MAX_ITERATIONS - self.iteration) * self.max_attempts - self.attempt) as nat
        }
    }

    /// The run waits for the result of a tool call.
    pub open spec fn awaits_tool(&self) -> bool {
        !self.finished && self.next_call < self.calls@.len()
    }

    /// The run waits for the model.
    pub open spec fn awaits_api(&self) -> bool {
        !self.finished && self.next_call >= self.calls@.len()
    }

    /// The input fits what the run waits for.
    pub open spec fn expects(&self, input: AgentInput) -> bool {
        match input {
            AgentInput::ToolDone { .. } => self.awaits_tool(),
            _ => self.awaits_api(),
        }
    }

    /// A failure of the model call can be answered without overflow.
    pub open spec fn step_ok(&self, input: AgentInput) -> bool {
        (self.awaits_api() && input is ApiErr && self.attempt + 1 < self.max_attempts)
            ==> delay_fits(self.retry_delay_secs, self.attempt)
    }

    /// A run over the conversation `initial` with the retry settings of
    /// `config`; its first action is a call of the model.
    pub fn new(config: &Config, initial: Vec<Message>) -> (r: AgentRun)
        requires
            config.retry_count < u32::MAX,
        ensures
            r.wf(),
            r.awaits_api(),
            r.messages@ == initial@,
            r.iteration == 0,
            r.attempt == 0,
            r.max_attempts == config.retry_count + 1,
            r.retry_delay_secs == config.retry_delay_secs,
            r.calls_left() == MAX_ITERATIONS * (config.retry_count + 1),
    {
        AgentRun {
            messages: initial,
            iteration: 0,
            attempt: 0,
            max_attempts: config.retry_count + 1,
            retry_delay_secs: config.retry_delay_secs,
            last_error: String::new(),
            calls: Vec::new(),
            next_call: 0,
            finished: false,
        }
    }

    /// Whether a failure of the model call now can be answered (the wait
    /// before the retry fits in `u32`).
    pub fn failure_fits(&self) -> (b: bool)
        ensures
            b == (self.attempt + 1 < self.max_attempts ==> delay_fits(self.retry_delay_secs, self.attempt)),
    {
        if self.attempt as u64 + 1 >= self.max_attempts as u64 {
            return true;
        }
        if self.attempt >= 32 {
            return false;
        }
        let mut p: u64 = 1;
        let mut i: u32 = 0;
        while i < self.attempt
            invariant
                i <= self.attempt < 32,
                p == pow2(i as nat),
                p <= 0x1_0000_0000,
            decreases self.attempt - i,
        {
            proof { lemma_pow2_bound((i + 1) as nat, 31); }
            p = p * 2;
            i += 1;
        }
        proof {
            lemma_pow2_bound(self.attempt as nat, 31);
            assert((self.retry_delay_secs as nat) * (p as nat) <= 0xFFFF_FFFF * 0x8000_0000) by (nonlinear_arith)
                requires self.retry_delay_secs <= 0xFFFF_FFFF, p <= 0x8000_0000;
        }
        (self.retry_delay_secs as u64) * p <= 0xFFFF_FFFF
    }

    /// The decisions of the agent loop for one input: the events to pass
    /// on to the conversation and what to do next. An input that the run
    /// does not wait for changes nothing and stops.
    pub fn step(&mut self, input: AgentInput) -> (r: (Vec<AgentEvent>, AgentAction))
        requires
            old(self).wf(),
            old(self).step_ok(input),
        ensures
            final(self).wf(),
            old(self).messages@.is_prefix_of(final(self).messages@),
            old(self).iteration <= final(self).iteration,
            final(self).max_attempts == old(self).max_attempts,
            final(self).retry_delay_secs == old(self).retry_delay_secs,
            old(self).expects(input) ==> (r.1 is Stop <==> final(self).finished),
            final(self).calls_left() <= old(self).calls_left(),
            (r.1 is CallApi || r.1 is Retry) ==> final(self).awaits_api() && final(self).calls_left() < old(self).calls_left()
                && final(self).calls_left() >= 1,
            forall|i: int| 0 <= i < r.0@.len() && is_final_event(#[trigger] r.0@[i]) ==> i == r.0@.len() - 1 && final(self).finished,
            final(self).finished && !old(self).finished ==> r.0@.len() > 0 && is_final_event(r.0@.last()),
            !old(self).expects(input) ==> {
                &&& *final(self) == *old(self)
                &&& r.0@.len() == 0
                &&& r.1 is Stop
            },
            old(self).expects(input) ==> match input {
                AgentInput::ApiErr(e) => if old(self).attempt + 1 < old(self).max_attempts {
                    let delay = retry_delay(old(self).retry_delay_secs, old(self).attempt);
                    &&& final(self).messages == old(self).messages
                    &&& final(self).iteration == old(self).iteration
                    &&& final(self).attempt == old(self).attempt + 1
                    &&& final(self).last_error@ == e@
                    &&& final(self).awaits_api()
                    &&& r.0@.len() == 1
                    &&& r.0@[0] matches AgentEvent::Token(t)
                        && t@ == retry_notice(delay, (old(self).attempt + 1) as nat, old(self).max_attempts as nat)
                    &&& r.1 matches AgentAction::Retry { delay_secs } && delay_secs == delay
                } else {
                    &&& final(self).messages == old(self).messages
                    &&& r.0@.len() == 1
                    &&& r.0@[0] matches AgentEvent::Error(t) && t@ == e@
                    &&& r.1 is Stop
                    &&& final(self).finished
                },
                AgentInput::ApiOk(cs) => if cs@.len() == 0 {
                    &&& final(self).messages == old(self).messages
                    &&& r.0@.len() == 1
                    &&& r.0@[0] is Done
                    &&& r.1 is Stop
                    &&& final(self).finished
                } else {
                    &&& final(self).messages@.len() == old(self).messages@.len() + 1
                    &&& calls_message(final(self).messages@.last(), cs@)
                    &&& final(self).iteration == old(self).iteration
                    &&& final(self).calls@.map_values(|c: CompletedToolCall| completed_view(c))
                        == cs@.map_values(|c: CompletedToolCall| completed_view(c))
                    &&& final(self).next_call == 0
                    &&& final(self).awaits_tool()
                    &&& r.0@.len() == 0
                    &&& r.1 matches AgentAction::RunTool { name, arguments }
                        && name@ == cs@[0].name@ && arguments@ == cs@[0].arguments@
                },
                AgentInput::ToolDone { result, is_error } => {
                    let c = old(self).calls@[old(self).next_call as int];
                    &&& final(self).messages@.len() == old(self).messages@.len() + 1
                    &&& result_message(final(self).messages@.last(), c, result@, is_error)
                    &&& r.0@.len() >= 1
                    &&& tool_end_event(r.0@[0], c, result@, is_error)
                    &&& if old(self).next_call + 1 < old(self).calls@.len() {
                        let n = old(self).calls@[old(self).next_call + 1];
                        &&& final(self).next_call == old(self).next_call + 1
                        &&& final(self).iteration == old(self).iteration
                        &&& r.0@.len() == 1
                        &&& r.1 matches AgentAction::RunTool { name, arguments }
                            && name@ == n.name@ && arguments@ == n.arguments@
                    } else if old(self).iteration + 1 < MAX_ITERATIONS {
                        &&& final(self).iteration == old(self).iteration + 1
                        &&& final(self).attempt == 0
                        &&& final(self).awaits_api()
                        &&& r.0@.len() == 1
                        &&& r.1 is CallApi
                    } else {
                        &&& final(self).iteration == MAX_ITERATIONS
                        &&& r.0@.len() == 2
                        &&& r.0@[1] matches AgentEvent::Error(t) && t@ == max_iterations_error()
                        &&& r.1 is Stop
                        &&& final(self).finished
                    }
                },
            },
    {
        let mut out: Vec<AgentEvent> = Vec::new();
        let ghost old_msgs = self.messages@;
        let ghost old_it = self.iteration;
        let ghost old_attempt = self.attempt;
        proof {
            if !self.finished {
                lemma_round_calls(self.iteration as nat, self.max_attempts as nat, self.attempt as nat);
            }
        }
        match input {
            AgentInput::ApiErr(e) => {
                if self.finished || self.next_call < self.calls.len() {
                    return (out, AgentAction::Stop);
                }
                if self.attempt + 1 < self.max_attempts {
                    let delay = self.delay_now();
                    let mut note = "\n[API call failed, retrying in ".to_owned();
                    note.append(decimal_string(delay as u64).as_str());
                    note.append("s (attempt ");
                    note.append(decimal_string((self.attempt + 1) as u64).as_str());
                    note.append("/");
                    note.append(decimal_string(self.max_attempts as u64).as_str());
                    note.append(")...]\n");
                    out.push(AgentEvent::Token(note));
                    self.last_error = e;
                    self.attempt = self.attempt + 1;
                    (out, AgentAction::Retry { delay_secs: delay })
                } else {
                    out.push(AgentEvent::Error(e));
                    self.finished = true;
                    (out, AgentAction::Stop)
                }
            },
            AgentInput::ApiOk(cs) => {
                if self.finished || self.next_call < self.calls.len() {
                    return (out, AgentAction::Stop);
                }
                if cs.len() == 0 {
                    out.push(AgentEvent::Done);
                    self.finished = true;
                    return (out, AgentAction::Stop);
                }
                let mut tcs: Vec<ToolCall> = Vec::new();
                let mut i: usize = 0;
                while i < cs.len()
                    invariant
                        i <= cs@.len(),
                        tcs@.len() == i,
                        forall|q: int| 0 <= q < i ==> recorded_call(cs@[q], #[trigger] tcs@[q]),
                    decreases cs@.len() - i,
                {
                    tcs.push(ToolCall { id: cs[i].id.clone(), name: cs[i].name.clone(), arguments: cs[i].arguments.clone() });
                    i += 1;
                }
                self.messages.push(Message {
                    role: MessageRole::Agent,
                    content: String::new(),
                    tool_calls: Some(tcs),
                    tool_call_id: None,
                    tool_result_error: false,
                });
                let name = cs[0].name.clone();
                let arguments = cs[0].arguments.clone();
                self.calls = cs;
                self.next_call = 0;
                proof {
                    assert(old_msgs.is_prefix_of(self.messages@)) by {
                        assert(self.messages@.take(old_msgs.len() as int) =~= old_msgs);
                    }
                }
                (out, AgentAction::RunTool { name, arguments })
            },
            AgentInput::ToolDone { result, is_error } => {
                if self.finished || self.next_call >= self.calls.len() {
                    return (out, AgentAction::Stop);
                }
                let k = self.next_call;
                let id = self.calls[k].id.clone();
                out.push(AgentEvent::ToolCallEnd {
                    id: self.calls[k].id.clone(),
                    name: self.calls[k].name.clone(),
                    arguments: self.calls[k].arguments.clone(),
                    result: result.clone(),
                    is_error,
                });
                self.messages.push(Message {
                    role: MessageRole::Tool,
                    content: result,
                    tool_calls: None,
                    tool_call_id: Some(id),
                    tool_result_error: is_error,
                });
                proof {
                    assert(old_msgs.is_prefix_of(self.messages@)) by {
                        assert(self.messages@.take(old_msgs.len() as int) =~= old_msgs);
                    }
                }
                self.next_call = k + 1;
                if k + 1 < self.calls.len() {
                    let name = self.calls[k + 1].name.clone();
                    let arguments = self.calls[k + 1].arguments.clone();
                    return (out, AgentAction::RunTool { name, arguments });
                }
                self.iteration = self.iteration + 1;
                self.attempt = 0;
                self.last_error = String::new();
                if self.iteration < MAX_ITERATIONS {
                    proof {
                        lemma_round_calls(old_it as nat, self.max_attempts as nat, old_attempt as nat);
                        assert(self.calls_left() == (10 - (old_it + 1)) * self.max_attempts);
                    }
                    (out, AgentAction::CallApi)
                } else {
                    out.push(AgentEvent::Error("Agent reached max iterations (10) without completing the task.".to_owned()));
                    self.finished = true;
                    (out, AgentAction::Stop)
                }
            },
        }
    }

    /// The wait before the next retry.
    fn delay_now(&self) -> (d: u32)
        requires
            delay_fits(self.retry_delay_secs, self.attempt),
        ensures
            d == retry_delay(self.retry_delay_secs, self.attempt),
    {
        let mut p: u32 = 1;
        let mut i: u32 = 0;
        while i < self.attempt
            invariant
                i <= self.attempt < 32,
                p == pow2(i as nat),
                delay_fits(self.retry_delay_secs, self.attempt),
            decreases self.attempt - i,
        {
            proof { lemma_pow2_bound((i + 1) as nat, 31); }
            p = p * 2;
            i += 1;
        }
        proof {
            lemma_pow2_pos(self.attempt as nat);
            assert(self.retry_delay_secs as nat * p <= u32::MAX);
        }
        self.retry_delay_secs * p
    }
}

/// How many of the flags are set.
pub open spec fn count_true(bs: Seq<bool>) -> nat
    decreases bs.len(),
{
    if bs.len() == 0 {
        0
    } else {
        count_true(bs.drop_last()) + if bs.last() { 1nat } else { 0nat }
    }
}

proof fn lemma_calls_prefix(runs: Seq<AgentRun>, asked: Seq<bool>, k: int)
    requires
        runs.len() == asked.len() + 1,
        0 <= k <= asked.len(),
        forall|i: int| 0 <= i < asked.len() ==> #[trigger] runs[i + 1].calls_left() <= runs[i].calls_left(),
        forall|i: int| 0 <= i < asked.len() && #[trigger] asked[i] ==> runs[i + 1].calls_left() < runs[i].calls_left()
            && runs[i + 1].calls_left() >= 1,
    ensures
        count_true(asked.take(k)) + runs[k].calls_left() <= runs[0].calls_left(),
        count_true(asked.take(k)) > 0 ==> count_true(asked.take(k)) < runs[0].calls_left(),
    decreases k,
{
    if k > 0 {
        lemma_calls_prefix(runs, asked, k - 1);
        assert(asked.take(k).drop_last() =~= asked.take(k - 1));
        assert(runs[(k - 1) + 1].calls_left() <= runs[k - 1].calls_left());
        if asked[k - 1] {
            assert(runs[(k - 1) + 1].calls_left() >= 1);
        }
    } else {
        assert(asked.take(0) =~= Seq::<bool>::empty());
    }
}

/// A run calls the model at most ten times the attempts allowed per round.
/// A run starts with `calls_left` at that number and its first call under
/// way; along any sequence of steps (`runs[i]` to `runs[i + 1]`, with
/// `asked[i]` telling whether the step asked for another call), as
/// `step` guarantees each step to be, the further calls stay below the
/// starting number.
pub proof fn model_calls_bounded(runs: Seq<AgentRun>, asked: Seq<bool>)
    requires
        runs.len() == asked.len() + 1,
        runs[0].wf(),
        !runs[0].finished,
        forall|i: int| 0 <= i < asked.len() ==> #[trigger] runs[i + 1].calls_left() <= runs[i].calls_left(),
        forall|i: int| 0 <= i < asked.len() && #[trigger] asked[i] ==> runs[i + 1].calls_left() < runs[i].calls_left()
            && runs[i + 1].calls_left() >= 1,
    ensures
        1 + count_true(asked) <= runs[0].calls_left(),
        runs[0].calls_left() <= MAX_ITERATIONS * runs[0].max_attempts,
{
    lemma_calls_prefix(runs, asked, asked.len() as int);
    assert(asked.take(asked.len() as int) =~= asked);
    lemma_round_calls(runs[0].iteration as nat, runs[0].max_attempts as nat, runs[0].attempt as nat);
    assert((MAX_ITERATIONS - runs[0].iteration) * runs[0].max_attempts <= MAX_ITERATIONS * runs[0].max_attempts) by (nonlinear_arith)
        requires runs[0].iteration <= MAX_ITERATIONS;
}

proof fn lemma_round_calls(it: nat, m: nat, a: nat)
    requires
        a < m,
        it < 10,
    ensures
        (10 - it) * m - a >= 1,
        (10 - (it + 1)) * m < (10 - it) * m - a,
        it + 1 < 10 ==> (10 - (it + 1)) * m >= m,
        (10 - it) * m >= m,
{
    assert((10 - it) * m >= m) by (nonlinear_arith)
        requires it < 10, a < m;
    assert(it + 1 < 10 ==> (10 - (it + 1)) * m >= m) by (nonlinear_arith)
        requires a < m;
    assert((10 - it) * m == (10 - (it + 1)) * m + m) by (nonlinear_arith)
        requires it < 10;
    assert((10 - (it + 1)) * m >= 0) by (nonlinear_arith)
        requires it < 10;
}

proof fn lemma_pow2_pos(n: nat)
    ensures
        pow2(n) >= 1,
    decreases n,
{
    if n > 0 {
        lemma_pow2_pos((n - 1) as nat);
    }
}

proof fn lemma_pow2_mono(n: nat, m: nat)
    requires
        n <= m,
    ensures
        pow2(n) <= pow2(m),
    decreases m,
{
    if n < m {
        lemma_pow2_mono(n, (m - 1) as nat);
        lemma_pow2_pos((m - 1) as nat);
    }
}

proof fn lemma_pow2_bound(n: nat, m: nat)
    requires
        n <= m <= 31,
    ensures
        pow2(n) <= pow2(m),
        pow2(m) <= 0x8000_0000,
{
    lemma_pow2_mono(n, m);
    lemma_pow2_mono(m, 31);
    reveal_with_fuel(pow2, 32);
    assert(pow2(31) == 0x8000_0000);
}

} // verus!
