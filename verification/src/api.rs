//! The chat-completions protocol: the messages sent to the API, the URL,
//! the reply of a plain request, and the decoding of a streamed reply
//! (server-sent-event lines and tool-call fragments).

use vstd::prelude::*;
use crate::app::{AgentEvent, Message, MessageRole, ToolCall};
use crate::config::Config;
use crate::text::{
    chars_of, class_pred, concat, lemma_scan_le, rspan_in, scan, scan_in, slice_range, starts_with,
    starts_with_exec, string_of, trim, trim_end_by, trim_range, CharClass,
};

verus! {

/// A message as the API receives it.
#[derive(Clone)]
pub struct ChatMessage {
    pub role: String,
    pub content: Option<String>,
    pub tool_calls: Option<Vec<ToolCallMsg>>,
    pub tool_call_id: Option<String>,
}

/// A tool call inside an assistant message sent to the API.
#[derive(Clone)]
pub struct ToolCallMsg {
    pub id: String,
    pub call_type: String,
    pub function: FunctionCall,
}

/// Name and arguments of a tool call sent to the API.
#[derive(Clone)]
pub struct FunctionCall {
    pub name: String,
    pub arguments: String,
}

/// A tool call whose fragments have all arrived.
pub struct CompletedToolCall {
    pub id: String,
    pub name: String,
    pub arguments: String,
}

/// An optional string holds the given text (or nothing).
pub open spec fn opt_text(o: Option<String>, t: Option<Seq<char>>) -> bool {
    match (o, t) {
        (Some(a), Some(b)) => a@ == b,
        (None, None) => true,
        _ => false,
    }
}

/// The text of an optional string.
pub open spec fn opt_view(o: Option<String>) -> Option<Seq<char>> {
    match o {
        Some(s) => Some(s@),
        None => None,
    }
}

/// The role name that the API uses for a conversation role.
pub open spec fn api_role(r: MessageRole) -> Seq<char> {
    match r {
        MessageRole::User => "user"@,
        MessageRole::Agent => "assistant"@,
        MessageRole::System => "system"@,
        MessageRole::Tool => "tool"@,
    }
}

/// `t` is tool call `c` as the API receives it.
pub open spec fn tool_call_sent(c: ToolCall, t: ToolCallMsg) -> bool {
    &&& t.id@ == c.id@
    &&& t.call_type@ == "function"@
    &&& t.function.name@ == c.name@
    &&& t.function.arguments@ == c.arguments@
}

/// `c` is conversation message `m` as the API receives it: tool results
/// carry the id of their call; an agent message with tool calls carries
/// them, and its text only when it is not empty; other messages carry their
/// role and text.
pub open spec fn message_sent(m: Message, c: ChatMessage) -> bool {
    &&& c.role@ == api_role(m.role)
    &&& if m.role == MessageRole::Tool {
        &&& opt_text(c.content, Some(m.content@))
        &&& c.tool_calls is None
        &&& opt_view(c.tool_call_id) == opt_view(m.tool_call_id)
    } else if m.role == MessageRole::Agent && m.tool_calls is Some {
        &&& opt_text(c.content, if m.content@.len() == 0 { None } else { Some(m.content@) })
        &&& (c.tool_calls matches Some(tcs) && tcs@.len() == m.tool_calls->0@.len()
            && forall|i: int| 0 <= i < tcs@.len() ==> tool_call_sent(m.tool_calls->0@[i], #[trigger] tcs@[i]))
        &&& c.tool_call_id is None
    } else {
        &&& opt_text(c.content, Some(m.content@))
        &&& c.tool_calls is None
        &&& c.tool_call_id is None
    }
}

fn copy_opt(o: &Option<String>) -> (r: Option<String>)
    ensures
        opt_view(r) == opt_view(*o),
{
    match o {
        Some(s) => Some(s.clone()),
        None => None,
    }
}

/// `build_messages`: the system prompt followed by the conversation, in the
/// form the API receives.
pub fn build_messages(config: &Config, conversation: &[Message]) -> (r: Vec<ChatMessage>)
    ensures
        r@.len() == conversation@.len() + 1,
        r@[0].role@ == "system"@,
        opt_text(r@[0].content, Some(config.system_prompt@)),
        r@[0].tool_calls is None,
        r@[0].tool_call_id is None,
        forall|i: int| 0 <= i < conversation@.len() ==> message_sent(conversation@[i], #[trigger] r@[i + 1]),
{
    let mut messages: Vec<ChatMessage> = Vec::new();
    messages.push(ChatMessage {
        role: "system".to_owned(),
        content: Some(config.system_prompt.clone()),
        tool_calls: None,
        tool_call_id: None,
    });
    let mut i: usize = 0;
    while i < conversation.len()
        invariant
            i <= conversation@.len(),
            messages@.len() == i + 1,
            messages@[0].role@ == "system"@,
            opt_text(messages@[0].content, Some(config.system_prompt@)),
            messages@[0].tool_calls is None,
            messages@[0].tool_call_id is None,
            forall|j: int| 0 <= j < i ==> message_sent(conversation@[j], #[trigger] messages@[j + 1]),
        decreases conversation@.len() - i,
    {
        let msg = &conversation[i];
        let cm = match msg.role {
            MessageRole::Tool => ChatMessage {
                role: "tool".to_owned(),
                content: Some(msg.content.clone()),
                tool_calls: None,
                tool_call_id: copy_opt(&msg.tool_call_id),
            },
            _ => {
                let role = match msg.role {
                    MessageRole::User => "user".to_owned(),
                    MessageRole::Agent => "assistant".to_owned(),
                    _ => "system".to_owned(),
                };
                match (&msg.role, &msg.tool_calls) {
                    (MessageRole::Agent, Some(tcs)) => {
                        let mut sent: Vec<ToolCallMsg> = Vec::new();
                        let mut j: usize = 0;
                        while j < tcs.len()
                            invariant
                                j <= tcs@.len(),
                                sent@.len() == j,
                                forall|q: int| 0 <= q < j ==> tool_call_sent(tcs@[q], #[trigger] sent@[q]),
                            decreases tcs@.len() - j,
                        {
                            sent.push(ToolCallMsg {
                                id: tcs[j].id.clone(),
                                call_type: "function".to_owned(),
                                function: FunctionCall {
                                    name: tcs[j].name.clone(),
                                    arguments: tcs[j].arguments.clone(),
                                },
                            });
                            j += 1;
                        }
                        let content = if msg.content.as_str().is_empty() {
                            None
                        } else {
                            Some(msg.content.clone())
                        };
                        ChatMessage { role, content, tool_calls: Some(sent), tool_call_id: None }
                    },
                    _ => ChatMessage {
                        role,
                        content: Some(msg.content.clone()),
                        tool_calls: None,
                        tool_call_id: None,
                    },
                }
            },
        };
        messages.push(cm);
        i += 1;
    }
    messages
}

/// The chat-completions endpoint under a base URL: the URL without its
/// trailing slashes, then `/v1/chat/completions`.
pub open spec fn completions_url(api_url: Seq<char>) -> Seq<char> {
    trim_end_by(api_url, class_pred(CharClass::Slash)) + "/v1/chat/completions"@
}

/// The chat-completions endpoint for a base URL.
pub fn chat_completions_url(api_url: &str) -> (url: String)
    ensures
        url@ == completions_url(api_url@),
{
    let v = chars_of(api_url);
    let n = rspan_in(v.as_slice(), 0, v.len(), CharClass::Slash);
    let mut url = string_of(slice_range(v.as_slice(), 0, v.len() - n));
    assert(v@.subrange(0, v@.len() as int) =~= v@);
    assert(v@.subrange(0, v@.len() - n) =~= trim_end_by(v@, class_pred(CharClass::Slash)));
    url.append("/v1/chat/completions");
    url
}

/// Text of the reply to a plain (not streamed) request.
pub struct ChatResponseMessage {
    pub content: Option<String>,
}

/// One choice of a plain reply.
pub struct ChatResponseChoice {
    pub message: ChatResponseMessage,
}

/// A plain reply of the API.
pub struct ChatResponse {
    pub choices: Vec<ChatResponseChoice>,
}

/// The answer of `chat_sync` from a reply that arrived: the text of the
/// first choice, or the error that the reply is empty.
pub fn response_text(resp: ChatResponse) -> (r: Result<String, String>)
    ensures
        resp.choices@.len() > 0 && resp.choices@[0].message.content is Some ==> (r matches Ok(s)
            && s@ == resp.choices@[0].message.content->0@),
        !(resp.choices@.len() > 0 && resp.choices@[0].message.content is Some) ==> (r matches Err(e)
            && e@ == "Empty response from API"@),
{
    let mut choices = resp.choices;
    if choices.len() > 0 {
        let first = choices.remove(0);
        if let Some(c) = first.message.content {
            return Ok(c);
        }
    }
    Err("Empty response from API".to_owned())
}


// ---------------------------------------------------------------------------
// Server-sent events
// ---------------------------------------------------------------------------

/// Whether two character sequences are equal.
pub fn chars_eq(a: &[char], b: &[char]) -> (r: bool)
    ensures
        r == (a@ == b@),
{
    if a.len() != b.len() {
        return false;
    }
    let r = crate::text::matches_at_exec(a, b, 0);
    assert(a@.subrange(0, b@.len() as int) =~= a@);
    r
}

/// Text of a streamed reply that has arrived but not yet been cut into lines.
pub struct SseBuffer {
    pub buffer: String,
}

impl SseBuffer {
    /// An empty buffer.
    pub fn new() -> (b: SseBuffer)
        ensures
            b.buffer@ == Seq::<char>::empty(),
    {
        SseBuffer { buffer: String::new() }
    }

    /// Adds text that arrived.
    pub fn push_text(&mut self, text: &str)
        ensures
            final(self).buffer@ == old(self).buffer@ + text@,
    {
        self.buffer.append(text);
    }

    /// Takes the next complete line out of the buffer, trimmed; nothing
    /// when no line ending has arrived yet.
    pub fn next_line(&mut self) -> (r: Option<String>)
        ensures
            ({
                let b = old(self).buffer@;
                let i = scan(b, class_pred(CharClass::Newline));
                if i < b.len() {
                    &&& r matches Some(l)
                    &&& l@ == trim(b.take(i as int))
                    &&& final(self).buffer@ == b.skip(i + 1 as int)
                } else {
                    &&& r is None
                    &&& final(self).buffer@ == b
                }
            }),
    {
        let v = chars_of(self.buffer.as_str());
        let vl = v.len();
        let i = scan_in(v.as_slice(), 0, vl, CharClass::Newline);
        assert(v@.subrange(0, vl as int) =~= v@);
        if i == vl {
            return None;
        }
        let (a, b) = trim_range(v.as_slice(), 0, i, CharClass::Whitespace);
        assert(v@.subrange(0, i as int) =~= v@.take(i as int));
        let line = string_of(slice_range(v.as_slice(), a, b));
        self.buffer = string_of(slice_range(v.as_slice(), i + 1, vl));
        assert(v@.subrange(i + 1, vl as int) =~= v@.skip(i + 1));
        Some(line)
    }
}

/// What a line of a streamed reply is.
pub enum SseLine {
    /// An empty line.
    Empty,
    /// The end of the stream, `data: [DONE]`.
    Done,
    /// An event: the text after `data: `.
    Data(String),
    /// Any other line, which is ignored.
    Other,
}

/// Classifies a trimmed line of a streamed reply.
pub fn classify_sse_line(line: &str) -> (r: SseLine)
    ensures
        line@.len() == 0 ==> r is Empty,
        line@.len() > 0 && line@ == "data: [DONE]"@ ==> r is Done,
        line@.len() > 0 && line@ != "data: [DONE]"@ && starts_with(line@, "data: "@) ==> (r matches SseLine::Data(d)
            && d@ == line@.skip(6)),
        line@.len() > 0 && line@ != "data: [DONE]"@ && !starts_with(line@, "data: "@) ==> r is Other,
{
    let v = chars_of(line);
    if v.len() == 0 {
        return SseLine::Empty;
    }
    let done = chars_of("data: [DONE]");
    if chars_eq(v.as_slice(), done.as_slice()) {
        return SseLine::Done;
    }
    let prefix = chars_of("data: ");
    proof {
        reveal_strlit("data: ");
    }
    if starts_with_exec(v.as_slice(), prefix.as_slice()) {
        assert(v@.subrange(6, v@.len() as int) =~= v@.skip(6));
        return SseLine::Data(string_of(slice_range(v.as_slice(), 6, v.len())));
    }
    SseLine::Other
}

// ---------------------------------------------------------------------------
// Streamed reply chunks and tool-call accumulation
// ---------------------------------------------------------------------------

/// Name and argument fragments of a streamed tool call.
pub struct FunctionDelta {
    pub name: Option<String>,
    pub arguments: Option<String>,
}

/// A fragment of a streamed tool call.
pub struct ToolCallDelta {
    pub index: usize,
    pub id: Option<String>,
    pub function: Option<FunctionDelta>,
}

/// What one chunk of a streamed reply adds.
pub struct DeltaContent {
    pub content: Option<String>,
    pub reasoning_content: Option<String>,
    pub tool_calls: Option<Vec<ToolCallDelta>>,
}

/// One choice of a streamed chunk.
pub struct StreamChoice {
    pub delta: DeltaContent,
}

/// One event of a streamed reply.
pub struct StreamChunk {
    pub choices: Vec<StreamChoice>,
}

/// A tool call assembled from its fragments so far.
pub struct AccToolCall {
    pub id: String,
    pub name: String,
    pub arguments: String,
    pub started: bool,
}

/// An accumulated call as `(id, name, arguments, started)`.
pub open spec fn acc_view(a: AccToolCall) -> (Seq<char>, Seq<char>, Seq<char>, bool) {
    (a.id@, a.name@, a.arguments@, a.started)
}

/// The accumulated calls.
pub open spec fn accs_view(v: Seq<AccToolCall>) -> Seq<(Seq<char>, Seq<char>, Seq<char>, bool)> {
    v.map_values(|a: AccToolCall| acc_view(a))
}

/// An event of the stream as `(tag, a, b)`: tag 0 is a token `a`, tag 1
/// the arguments `b` of call `a`, tag 2 the start of call `a` named `b`.
pub open spec fn event_view(e: AgentEvent) -> (nat, Seq<char>, Seq<char>) {
    match e {
        AgentEvent::Token(t) => (0, t@, Seq::empty()),
        AgentEvent::ToolCallArg { id, args } => (1, id@, args@),
        AgentEvent::ToolCallStart { id, name } => (2, id@, name@),
        _ => (3, Seq::empty(), Seq::empty()),
    }
}

/// The events.
pub open spec fn events_view(v: Seq<AgentEvent>) -> Seq<(nat, Seq<char>, Seq<char>)> {
    v.map_values(|e: AgentEvent| event_view(e))
}

/// An empty accumulated call.
pub open spec fn blank_acc() -> (Seq<char>, Seq<char>, Seq<char>, bool) {
    (Seq::empty(), Seq::empty(), Seq::empty(), false)
}

/// The accumulated calls, extended with empty ones so that `index` exists.
pub open spec fn grown(accs: Seq<(Seq<char>, Seq<char>, Seq<char>, bool)>, index: nat) -> Seq<(Seq<char>, Seq<char>, Seq<char>, bool)> {
    if index < accs.len() {
        accs
    } else {
        accs + Seq::new((index + 1 - accs.len()) as nat, |i: int| blank_acc())
    }
}

/// A text that is present and not empty.
pub open spec fn nonempty(o: Option<String>) -> bool {
    o matches Some(s) && s@.len() > 0
}

/// The accumulated calls and the events after one tool-call fragment: the
/// id replaces the call's id when present; a non-empty name replaces its
/// name; non-empty arguments are appended and reported; once a call has an
/// id and a name, its start is reported, once.
pub open spec fn tool_step(accs: Seq<(Seq<char>, Seq<char>, Seq<char>, bool)>, d: ToolCallDelta)
    -> (Seq<(Seq<char>, Seq<char>, Seq<char>, bool)>, Seq<(nat, Seq<char>, Seq<char>)>)
{
    let a0 = grown(accs, d.index as nat);
    let acc = a0[d.index as int];
    let id1 = match d.id { Some(s) => s@, None => acc.0 };
    let name1 = match d.function {
        Some(f) => if nonempty(f.name) { f.name->0@ } else { acc.1 },
        None => acc.1,
    };
    let has_args = d.function matches Some(f) && nonempty(f.arguments);
    let args1 = if has_args { acc.2 + d.function->0.arguments->0@ } else { acc.2 };
    let ev1: Seq<(nat, Seq<char>, Seq<char>)> = if has_args {
        seq![(1nat, id1, d.function->0.arguments->0@)]
    } else {
        seq![]
    };
    let start = !acc.3 && id1.len() > 0 && name1.len() > 0;
    let ev2: Seq<(nat, Seq<char>, Seq<char>)> = if start { seq![(2nat, id1, name1)] } else { seq![] };
    (a0.update(d.index as int, (id1, name1, args1, acc.3 || start)), ev1 + ev2)
}

/// The accumulated calls and the events after the fragments `ds`, in order.
pub open spec fn tool_steps(accs: Seq<(Seq<char>, Seq<char>, Seq<char>, bool)>, ds: Seq<ToolCallDelta>)
    -> (Seq<(Seq<char>, Seq<char>, Seq<char>, bool)>, Seq<(nat, Seq<char>, Seq<char>)>)
    decreases ds.len(),
{
    if ds.len() == 0 {
        (accs, seq![])
    } else {
        let (a, e) = tool_steps(accs, ds.drop_last());
        let (a2, e2) = tool_step(a, ds.last());
        (a2, e + e2)
    }
}

/// The token of a chunk's first choice: its content when present, otherwise
/// its reasoning content.
pub open spec fn chunk_token(d: DeltaContent) -> Option<Seq<char>> {
    match d.content {
        Some(c) => Some(c@),
        None => opt_view(d.reasoning_content),
    }
}

/// The accumulated calls and the events after a chunk: only its first
/// choice counts; a non-empty token is reported first, then the tool-call
/// fragments are applied.
pub open spec fn chunk_step(accs: Seq<(Seq<char>, Seq<char>, Seq<char>, bool)>, c: StreamChunk)
    -> (Seq<(Seq<char>, Seq<char>, Seq<char>, bool)>, Seq<(nat, Seq<char>, Seq<char>)>)
{
    if c.choices@.len() == 0 {
        (accs, seq![])
    } else {
        let d = c.choices@[0].delta;
        let tok: Seq<(nat, Seq<char>, Seq<char>)> = match chunk_token(d) {
            Some(t) => if t.len() > 0 { seq![(0nat, t, Seq::<char>::empty())] } else { seq![] },
            None => seq![],
        };
        match d.tool_calls {
            Some(ds) => {
                let (a, e) = tool_steps(accs, ds@);
                (a, tok + e)
            },
            None => (accs, tok),
        }
    }
}

/// Every fragment of the chunk names an index below `usize::MAX`.
pub open spec fn chunk_indices_ok(c: StreamChunk) -> bool {
    c.choices@.len() > 0 ==> (c.choices@[0].delta.tool_calls matches Some(ds) ==> forall|i: int|
        0 <= i < ds@.len() ==> (#[trigger] ds@[i]).index < usize::MAX)
}

/// The state of a streamed reply: tool calls assembled so far.
pub struct StreamState {
    pub acc_tool_calls: Vec<AccToolCall>,
}

fn empty_acc() -> (a: AccToolCall)
    ensures
        acc_view(a) == blank_acc(),
{
    AccToolCall { id: String::new(), name: String::new(), arguments: String::new(), started: false }
}

impl StreamState {
    /// No tool calls yet.
    pub fn new() -> (s: StreamState)
        ensures
            s.acc_tool_calls@.len() == 0,
    {
        StreamState { acc_tool_calls: Vec::new() }
    }

    fn apply_tool_delta(&mut self, d: &ToolCallDelta) -> (events: Vec<AgentEvent>)
        requires
            d.index < usize::MAX,
        ensures
            (accs_view(final(self).acc_tool_calls@), events_view(events@)) == tool_step(accs_view(old(self).acc_tool_calls@), *d),
    {
        let index = d.index;
        let ghost a_old = accs_view(self.acc_tool_calls@);
        let ghost start_len = self.acc_tool_calls@.len();
        while self.acc_tool_calls.len() <= index
            invariant
                index < usize::MAX,
                self.acc_tool_calls@.len() >= start_len,
                self.acc_tool_calls@.len() <= if start_len > index + 1 { start_len as int } else { index + 1 },
                accs_view(self.acc_tool_calls@) == a_old + Seq::new((self.acc_tool_calls@.len() - start_len) as nat, |i: int| blank_acc()),
            decreases index + 1 - self.acc_tool_calls@.len(),
        {
            let ghost before = self.acc_tool_calls@;
            self.acc_tool_calls.push(empty_acc());
            assert(accs_view(self.acc_tool_calls@) =~= accs_view(before).push(blank_acc()));
            assert(a_old + Seq::new((self.acc_tool_calls@.len() - start_len) as nat, |i: int| blank_acc())
                =~= (a_old + Seq::new((before.len() - start_len) as nat, |i: int| blank_acc())).push(blank_acc()));
        }
        let ghost a0 = accs_view(self.acc_tool_calls@);
        proof {
            if index < start_len {
                assert(a0 =~= a_old);
            } else {
                assert(a0 =~= grown(a_old, index as nat));
            }
            assert(a0 == grown(a_old, index as nat));
        }
        let ghost before_take = self.acc_tool_calls@;
        let mut acc = self.acc_tool_calls.remove(index);
        let mut events: Vec<AgentEvent> = Vec::new();
        if let Some(id) = &d.id {
            acc.id = id.clone();
        }
        let mut has_args = false;
        if let Some(func) = &d.function {
            if let Some(name) = &func.name {
                if !name.as_str().is_empty() {
                    acc.name = name.clone();
                }
            }
            if let Some(args) = &func.arguments {
                if !args.as_str().is_empty() {
                    acc.arguments.append(args.as_str());
                    events.push(AgentEvent::ToolCallArg { id: acc.id.clone(), args: args.clone() });
                    has_args = true;
                }
            }
        }
        let ghost ev1 = events_view(events@);
        let mut started_now = false;
        if !acc.started && !acc.id.as_str().is_empty() && !acc.name.as_str().is_empty() {
            acc.started = true;
            started_now = true;
            events.push(AgentEvent::ToolCallStart { id: acc.id.clone(), name: acc.name.clone() });
        }
        self.acc_tool_calls.insert(index, acc);
        proof {
            assert(accs_view(self.acc_tool_calls@) =~= a0.update(index as int, acc_view(acc)));
            let s = tool_step(a_old, *d);
            assert(s.0 =~= a0.update(index as int, acc_view(acc)));
            assert(events_view(events@) =~= s.1);
        }
        events
    }

    /// Applies one chunk of a streamed reply and returns the events to
    /// report, in order.
    pub fn apply_chunk(&mut self, chunk: &StreamChunk) -> (events: Vec<AgentEvent>)
        requires
            chunk_indices_ok(*chunk),
        ensures
            (accs_view(final(self).acc_tool_calls@), events_view(events@)) == chunk_step(accs_view(old(self).acc_tool_calls@), *chunk),
    {
        let mut events: Vec<AgentEvent> = Vec::new();
        if chunk.choices.len() == 0 {
            return events;
        }
        let delta = &chunk.choices[0].delta;
        let token = match &delta.content {
            Some(c) => Some(c),
            None => match &delta.reasoning_content {
                Some(r) => Some(r),
                None => None,
            },
        };
        if let Some(t) = token {
            if !t.as_str().is_empty() {
                events.push(AgentEvent::Token(t.clone()));
            }
        }
        let ghost tok = events_view(events@);
        let ghost a_old = accs_view(self.acc_tool_calls@);
        if let Some(ds) = &delta.tool_calls {
            let mut k: usize = 0;
            assert(ds@.take(0) =~= Seq::<ToolCallDelta>::empty());
            while k < ds.len()
                invariant
                    chunk_indices_ok(*chunk),
                    chunk.choices@.len() > 0,
                    delta == chunk.choices@[0].delta,
                    delta.tool_calls == Some(*ds),
                    k <= ds@.len(),
                    (accs_view(self.acc_tool_calls@), events_view(events@)) == ({
                        let (a, e) = tool_steps(a_old, ds@.take(k as int));
                        (a, tok + e)
                    }),
                decreases ds@.len() - k,
            {
                assert(ds@[k as int].index < usize::MAX);
                let ghost before = events@;
                let evs = self.apply_tool_delta(&ds[k]);
                let mut evs = evs;
                let ghost added = evs@;
                events.append(&mut evs);
                proof {
                    assert(ds@.take(k + 1).drop_last() =~= ds@.take(k as int));
                    assert(ds@.take(k + 1).last() == ds@[k as int]);
                    assert(events_view(events@) =~= events_view(before) + events_view(added));
                }
                k += 1;
            }
            assert(ds@.take(ds@.len() as int) =~= ds@);
        }
        events
    }
}

/// The calls that have both an id and a name, as `(id, name, arguments)`.
pub open spec fn completed_calls(accs: Seq<(Seq<char>, Seq<char>, Seq<char>, bool)>) -> Seq<(Seq<char>, Seq<char>, Seq<char>)>
    decreases accs.len(),
{
    if accs.len() == 0 {
        seq![]
    } else {
        let prev = completed_calls(accs.drop_last());
        let a = accs.last();
        if a.0.len() > 0 && a.1.len() > 0 { prev.push((a.0, a.1, a.2)) } else { prev }
    }
}

/// The tool calls of a finished stream are exactly the accumulated calls
/// that got both an id and a name, each once, in the order of their stream
/// indices; when every call got an id and a name, the `k`-th completed call
/// is the `k`-th accumulated one.
pub proof fn completed_calls_keep_stream_order(accs: Seq<(Seq<char>, Seq<char>, Seq<char>, bool)>)
    ensures
        completed_calls(accs) == accs.filter(
            |a: (Seq<char>, Seq<char>, Seq<char>, bool)| a.0.len() > 0 && a.1.len() > 0,
        ).map_values(|a: (Seq<char>, Seq<char>, Seq<char>, bool)| (a.0, a.1, a.2)),
        (forall|i: int| 0 <= i < accs.len() ==> (#[trigger] accs[i]).0.len() > 0 && accs[i].1.len() > 0)
            ==> completed_calls(accs) == accs.map_values(|a: (Seq<char>, Seq<char>, Seq<char>, bool)| (a.0, a.1, a.2)),
    decreases accs.len(),
{
    let pred = |a: (Seq<char>, Seq<char>, Seq<char>, bool)| a.0.len() > 0 && a.1.len() > 0;
    let f = |a: (Seq<char>, Seq<char>, Seq<char>, bool)| (a.0, a.1, a.2);
    reveal(Seq::filter);
    if accs.len() > 0 {
        let init = accs.drop_last();
        completed_calls_keep_stream_order(init);
        assert(accs.filter(pred) == if pred(accs.last()) { init.filter(pred).push(accs.last()) } else { init.filter(pred) });
        if pred(accs.last()) {
            assert(init.filter(pred).push(accs.last()).map_values(f) =~= init.filter(pred).map_values(f).push(f(accs.last())));
        }
        if forall|i: int| 0 <= i < accs.len() ==> (#[trigger] accs[i]).0.len() > 0 && accs[i].1.len() > 0 {
            assert forall|i: int| 0 <= i < init.len() implies (#[trigger] init[i]).0.len() > 0 && init[i].1.len() > 0 by {
                assert(init[i] == accs[i]);
            }
            assert(accs[accs.len() - 1] == accs.last());
            assert(accs.map_values(f) =~= init.map_values(f).push(f(accs.last())));
        }
    } else {
        assert(accs.map_values(f) =~= Seq::<(Seq<char>, Seq<char>, Seq<char>)>::empty());
        assert(accs.filter(pred).map_values(f) =~= Seq::<(Seq<char>, Seq<char>, Seq<char>)>::empty());
    }
}

/// A completed call as `(id, name, arguments)`.
pub open spec fn completed_view(c: CompletedToolCall) -> (Seq<char>, Seq<char>, Seq<char>) {
    (c.id@, c.name@, c.arguments@)
}

/// The tool calls that a finished stream asks for: those that got an id and
/// a name, in order.
pub fn collect_completed(acc: &Vec<AccToolCall>) -> (r: Vec<CompletedToolCall>)
    ensures
        r@.map_values(|c: CompletedToolCall| completed_view(c)) == completed_calls(accs_view(acc@)),
{
    let mut r: Vec<CompletedToolCall> = Vec::new();
    let mut i: usize = 0;
    assert(accs_view(acc@).take(0) =~= Seq::<(Seq<char>, Seq<char>, Seq<char>, bool)>::empty());
    while i < acc.len()
        invariant
            i <= acc@.len(),
            r@.map_values(|c: CompletedToolCall| completed_view(c)) == completed_calls(accs_view(acc@).take(i as int)),
        decreases acc@.len() - i,
    {
        let a = &acc[i];
        let ghost before = r@;
        proof {
            assert(accs_view(acc@).take(i + 1).drop_last() =~= accs_view(acc@).take(i as int));
            assert(accs_view(acc@).take(i + 1).last() == acc_view(acc@[i as int]));
        }
        if !a.id.as_str().is_empty() && !a.name.as_str().is_empty() {
            r.push(CompletedToolCall { id: a.id.clone(), name: a.name.clone(), arguments: a.arguments.clone() });
            assert(r@.map_values(|c: CompletedToolCall| completed_view(c)) =~= before.map_values(|c: CompletedToolCall| completed_view(c)).push(
                (acc@[i as int].id@, acc@[i as int].name@, acc@[i as int].arguments@)));
        }
        i += 1;
    }
    assert(accs_view(acc@).take(acc@.len() as int) =~= accs_view(acc@));
    r
}

} // verus!
