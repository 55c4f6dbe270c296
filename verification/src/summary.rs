//! Summarization of past sessions into the long-term memory document: the
//! transcripts of saved sessions, the request sent to the model, the
//! document written back, and the steps of a summarization run.

use vstd::prelude::*;
use crate::api::{opt_text, opt_view, ChatMessage};
use crate::app::{AgentEvent, Message, MessageRole};
use crate::session::SessionData;
use crate::text::{
    byte_len, byte_prefix, char_boundary, concat, decimal, decimal_string, is_char_boundary_exec,
    lemma_concat_push, prefix_bytes, str_byte_len, trim, trim_str,
};

verus! {

// ---------------------------------------------------------------------------
// Transcripts of saved sessions
// ---------------------------------------------------------------------------

/// At most this many messages of a session go into its transcript.
pub open spec fn transcript_limit() -> nat {
    100
}

/// A message from the user or the agent (not a note or a tool result).
pub open spec fn is_dialogue(m: Message) -> bool {
    m.role == MessageRole::User || m.role == MessageRole::Agent
}

/// The messages from the user or the agent, in order.
pub open spec fn dialogue(ms: Seq<Message>) -> Seq<Message>
    decreases ms.len(),
{
    if ms.len() == 0 {
        seq![]
    } else {
        let prev = dialogue(ms.drop_last());
        if is_dialogue(ms.last()) { prev.push(ms.last()) } else { prev }
    }
}

/// The messages of a session that its transcript shows: of both
/// conversations, after the first two messages (the welcome and the
/// prompt), those from the user or the agent, the last hundred of them.
pub open spec fn transcript_messages(d: SessionData) -> Seq<Message> {
    let all = d.plan_messages@ + d.build_messages@;
    let rel = if all.len() >= 2 { dialogue(all.skip(2)) } else { seq![] };
    if rel.len() > transcript_limit() { rel.skip(rel.len() - transcript_limit()) } else { rel }
}

/// Label of a dialogue message in a transcript.
pub open spec fn role_label(r: MessageRole) -> Seq<char> {
    if r == MessageRole::User { "User"@ } else { "Agent"@ }
}

/// A message text as a transcript shows it: the first 2000 bytes and `...`
/// when it is longer.
pub open spec fn clipped(c: Seq<char>) -> Seq<char> {
    if byte_len(c) > 2000 { byte_prefix(c, 2000) + "..."@ } else { c }
}

/// A text can be clipped: it is short, or 2000 bytes end at a character.
pub open spec fn clippable(c: Seq<char>) -> bool {
    byte_len(c) > 2000 ==> char_boundary(c, 2000)
}

/// The transcript line of a message.
pub open spec fn transcript_line(m: Message) -> Seq<char> {
    "["@ + role_label(m.role) + "]: "@ + clipped(m.content@) + "\n"@
}

/// The transcript lines of messages, in order.
pub open spec fn transcript_lines(ms: Seq<Message>) -> Seq<Seq<char>> {
    ms.map_values(|m: Message| transcript_line(m))
}

/// The first line of a transcript.
pub open spec fn transcript_header(d: SessionData) -> Seq<char> {
    "=== Session: "@ + d.session_name@ + " (created: "@ + d.created_at@ + ", updated: "@ + d.updated_at@
        + ") ===\n"@
}

/// The transcript of a session: its header, a line per message shown, and
/// an empty line.
pub open spec fn transcript(d: SessionData) -> Seq<char> {
    transcript_header(d) + concat(transcript_lines(transcript_messages(d))) + "\n"@
}

/// Every message that a transcript shows can be clipped.
pub open spec fn transcript_ok(d: SessionData) -> bool {
    forall|i: int| 0 <= i < transcript_messages(d).len() ==> clippable(#[trigger] transcript_messages(d)[i].content@)
}

/// The transcripts of sessions, one after the other.
pub open spec fn transcripts(ds: Seq<SessionData>) -> Seq<char> {
    concat(ds.map_values(|d: SessionData| transcript(d)))
}

/// The message at position `p` of the two conversations one after the other.
fn message_at<'a>(d: &'a SessionData, p: u128) -> (m: &'a Message)
    requires
        p < d.plan_messages@.len() + d.build_messages@.len(),
    ensures
        *m == (d.plan_messages@ + d.build_messages@)[p as int],
{
    let pl = d.plan_messages.len();
    if p < pl as u128 {
        &d.plan_messages[p as usize]
    } else {
        let bl = d.build_messages.len();
        let off = p - pl as u128;
        assert(off < bl);
        let k = off as usize;
        assert(k == off);
        &d.build_messages[k]
    }
}

/// Positions, in the two conversations one after the other, of the
/// messages that the transcript of `d` shows.
fn transcript_positions(d: &SessionData) -> (r: Vec<u128>)
    ensures
        r@.len() == transcript_messages(*d).len(),
        forall|i: int| 0 <= i < r@.len() ==> {
            &&& (#[trigger] r@[i]) < d.plan_messages@.len() + d.build_messages@.len()
            &&& (d.plan_messages@ + d.build_messages@)[r@[i] as int] == transcript_messages(*d)[i]
        },
{
    let ghost all = d.plan_messages@ + d.build_messages@;
    let pl = d.plan_messages.len();
    let bl = d.build_messages.len();
    assert(pl + bl == all.len());
    let total: u128 = pl as u128 + bl as u128;
    let mut pos: Vec<u128> = Vec::new();
    if total < 2 {
        return pos;
    }
    let mut q: u128 = 2;
    assert(all.subrange(2, 2) =~= Seq::<Message>::empty());
    while q < total
        invariant
            2 <= q <= total,
            total == all.len(),
            all == d.plan_messages@ + d.build_messages@,
            pos@.len() == dialogue(all.subrange(2, q as int)).len(),
            forall|i: int| 0 <= i < pos@.len() ==> {
                &&& (#[trigger] pos@[i]) < total
                &&& all[pos@[i] as int] == dialogue(all.subrange(2, q as int))[i]
            },
        decreases total - q,
    {
        let m = message_at(d, q);
        let ghost before = dialogue(all.subrange(2, q as int));
        assert(all.subrange(2, q + 1).drop_last() =~= all.subrange(2, q as int));
        assert(all.subrange(2, q + 1).last() == all[q as int]);
        if m.role == MessageRole::User || m.role == MessageRole::Agent {
            pos.push(q);
        }
        q += 1;
    }
    assert(all.subrange(2, total as int) =~= all.skip(2));
    let n = pos.len();
    if n <= 100 {
        return pos;
    }
    let mut out: Vec<u128> = Vec::new();
    let start = n - 100;
    let mut j = start;
    let ghost rel = dialogue(all.skip(2));
    while j < n
        invariant
            start <= j <= n,
            n == pos@.len(),
            start == n - 100,
            rel.len() == n,
            total == all.len(),
            all == d.plan_messages@ + d.build_messages@,
            out@.len() == j - start,
            forall|i: int| 0 <= i < pos@.len() ==> {
                &&& (#[trigger] pos@[i]) < total
                &&& all[pos@[i] as int] == rel[i]
            },
            forall|i: int| 0 <= i < out@.len() ==> (#[trigger] out@[i]) == pos@[start + i],
        decreases n - j,
    {
        out.push(pos[j]);
        j += 1;
    }
    proof {
        assert forall|i: int| 0 <= i < out@.len() implies {
            &&& (#[trigger] out@[i]) < d.plan_messages@.len() + d.build_messages@.len()
            &&& (d.plan_messages@ + d.build_messages@)[out@[i] as int] == transcript_messages(*d)[i]
        } by {
            assert(out@[i] == pos@[start + i]);
            assert(rel.skip(rel.len() - 100)[i] == rel[start + i]);
        }
    }
    out
}

/// Whether every message that the transcript of `d` shows can be clipped.
pub fn transcript_clippable(d: &SessionData) -> (b: bool)
    ensures
        b == transcript_ok(*d),
{
    let pos = transcript_positions(d);
    let ghost ms = transcript_messages(*d);
    let mut k: usize = 0;
    while k < pos.len()
        invariant
            k <= pos@.len(),
            pos@.len() == ms.len(),
            ms == transcript_messages(*d),
            forall|i: int| 0 <= i < pos@.len() ==> {
                &&& (#[trigger] pos@[i]) < d.plan_messages@.len() + d.build_messages@.len()
                &&& (d.plan_messages@ + d.build_messages@)[pos@[i] as int] == ms[i]
            },
            forall|i: int| 0 <= i < k ==> clippable(#[trigger] ms[i].content@),
        decreases pos@.len() - k,
    {
        let m = message_at(d, pos[k]);
        let n = str_byte_len(m.content.as_str());
        if n > 2000 && !is_char_boundary_exec(m.content.as_str(), 2000) {
            assert(!clippable(ms[k as int].content@));
            return false;
        }
        k += 1;
    }
    true
}

/// A message text as a transcript shows it.
fn clip_text(c: &str) -> (r: String)
    requires
        clippable(c@),
    ensures
        r@ == clipped(c@),
{
    if str_byte_len(c) > 2000 {
        let mut r = prefix_bytes(c, 2000);
        r.append("...");
        r
    } else {
        c.to_owned()
    }
}

/// The transcript of a saved session, as `collect_all_session_texts`
/// writes it.
pub fn session_transcript(d: &SessionData) -> (r: String)
    requires
        transcript_ok(*d),
    ensures
        r@ == transcript(*d),
{
    let mut out = "=== Session: ".to_owned();
    out.append(d.session_name.as_str());
    out.append(" (created: ");
    out.append(d.created_at.as_str());
    out.append(", updated: ");
    out.append(d.updated_at.as_str());
    out.append(") ===\n");
    let ghost head = out@;
    let pos = transcript_positions(d);
    let ghost ms = transcript_messages(*d);
    let ghost ls = transcript_lines(ms);
    let mut k: usize = 0;
    assert(ls.take(0) =~= Seq::<Seq<char>>::empty());
    while k < pos.len()
        invariant
            k <= pos@.len(),
            pos@.len() == ms.len(),
            ms == transcript_messages(*d),
            ls == transcript_lines(ms),
            transcript_ok(*d),
            forall|i: int| 0 <= i < pos@.len() ==> {
                &&& (#[trigger] pos@[i]) < d.plan_messages@.len() + d.build_messages@.len()
                &&& (d.plan_messages@ + d.build_messages@)[pos@[i] as int] == ms[i]
            },
            out@ == head + concat(ls.take(k as int)),
        decreases pos@.len() - k,
    {
        let m = message_at(d, pos[k]);
        assert(clippable(ms[k as int].content@));
        let ghost before = out@;
        out.append("[");
        if m.role == MessageRole::User {
            out.append("User");
        } else {
            out.append("Agent");
        }
        out.append("]: ");
        let c = clip_text(m.content.as_str());
        out.append(c.as_str());
        out.append("\n");
        proof {
            assert(ls[k as int] == transcript_line(ms[k as int]));
            assert(out@ =~= before + ls[k as int]);
            assert(ls.take(k + 1) =~= ls.take(k as int).push(ls[k as int]));
            lemma_concat_push(ls.take(k as int), ls[k as int]);
        }
        k += 1;
    }
    assert(ls.take(pos@.len() as int) =~= ls);
    out.append("\n");
    out
}

/// Every session's transcript can be written.
pub open spec fn transcripts_ok(ds: Seq<SessionData>) -> bool {
    forall|i: int| 0 <= i < ds.len() ==> transcript_ok(#[trigger] ds[i])
}

/// The text that `collect_all_session_texts` gathers from the loaded
/// sessions: their transcripts one after the other.
pub fn all_transcripts(ds: &[SessionData]) -> (r: String)
    requires
        transcripts_ok(ds@),
    ensures
        r@ == transcripts(ds@),
{
    let ghost ts = ds@.map_values(|d: SessionData| transcript(d));
    let mut out = String::new();
    let mut k: usize = 0;
    assert(ts.take(0) =~= Seq::<Seq<char>>::empty());
    while k < ds.len()
        invariant
            k <= ds@.len(),
            ts == ds@.map_values(|d: SessionData| transcript(d)),
            transcripts_ok(ds@),
            out@ == concat(ts.take(k as int)),
        decreases ds@.len() - k,
    {
        assert(transcript_ok(ds@[k as int]));
        let t = session_transcript(&ds[k]);
        out.append(t.as_str());
        proof {
            assert(ts.take(k + 1) =~= ts.take(k as int).push(ts[k as int]));
            lemma_concat_push(ts.take(k as int), ts[k as int]);
        }
        k += 1;
    }
    assert(ts.take(ds@.len() as int) =~= ts);
    out
}


// ---------------------------------------------------------------------------
// The summarization request and the memory document
// ---------------------------------------------------------------------------

/// The instructions given to the model for a summarization.
pub open spec fn summarize_system_prompt() -> Seq<char> {
    "\
You are a knowledge summarization engine. Your task is to analyze conversation histories \
from multiple programming/development sessions and produce a structured long-term memory \
document in markdown format.

Instructions:
1. Read through all provided session transcripts carefully.
2. Identify distinct topics discussed across sessions (e.g., specific features, bugs fixed, \
   architectural decisions, library usage patterns, configuration details, project conventions).
3. For each topic, write a concise but information-dense summary (2-5 paragraphs). Include:
   - What was decided or implemented
   - Specific code patterns, file paths, or configuration values mentioned
   - Rationale behind decisions
   - Any caveats or gotchas discovered
4. Group related information into the same topic block rather than creating many small blocks.
5. At the end of each topic block, add a \"### Cross-References\" section linking to other \
   related topics. Use the format: \"- [Topic: Name](#topic-name) -- relationship description\"
6. Use the following exact format for each topic block (separate blocks with \"---\"):

## Topic: <Descriptive Title>
**Last Updated**: <current datetime>
**Source Sessions**: <number of sessions this topic appeared in>

<summary content>

### Cross-References
- [Topic: Other](#topic-other) -- brief relationship note

7. Do NOT include a top-level \"# Long-Term Memory\" header -- that will be added automatically.
8. Write in English. Be specific and concrete, not vague.
9. If the existing memory already covers a topic, update and enrich it rather than duplicating."@
}

/// The text in front of the session transcripts.
pub open spec fn transcripts_intro() -> Seq<char> {
    "Here are the conversation transcripts from past sessions. Summarize them into a long-term memory document.\n\n"@
}

/// The text in front of the existing memory.
pub open spec fn memory_intro() -> Seq<char> {
    "Here is the existing long-term memory for this project. Integrate any new knowledge from the session transcripts above. Update existing topics if new information is available. Add new topics for entirely new subjects.\n\n"@
}

/// The request's text about the sessions: the transcripts after their
/// introduction, cut to 120000 bytes and marked as cut when longer.
pub open spec fn transcripts_prompt(texts: Seq<char>) -> Seq<char> {
    let p = transcripts_intro() + texts;
    if byte_len(p) > 120000 {
        byte_prefix(p, 120000) + "\n\n[... content truncated due to length ...]"@
    } else {
        p
    }
}

/// The request's text about the existing memory: the memory after its
/// introduction, its first 50000 bytes and a mark when longer.
pub open spec fn memory_prompt(existing: Seq<char>) -> Seq<char> {
    let e = if byte_len(existing) > 50000 {
        byte_prefix(existing, 50000) + "...\n\n[... existing memory truncated ...]"@
    } else {
        existing
    };
    memory_intro() + e
}

/// The texts can be cut where the request cuts them.
pub open spec fn request_cuttable(texts: Seq<char>, existing: Option<Seq<char>>) -> bool {
    &&& (byte_len(transcripts_intro() + texts) > 120000 ==> char_boundary(transcripts_intro() + texts, 120000))
    &&& (existing matches Some(e) ==> (byte_len(e) > 50000 ==> char_boundary(e, 50000)))
}

/// `c` is a message from `role` with the text `content` and nothing else.
pub open spec fn plain_chat(c: ChatMessage, role: Seq<char>, content: Seq<char>) -> bool {
    &&& c.role@ == role
    &&& opt_text(c.content, Some(content))
    &&& c.tool_calls is None
    &&& c.tool_call_id is None
}

/// `msgs` is the summarization request: the instructions, the transcripts,
/// and the existing memory when there is one.
pub open spec fn summarization_request(msgs: Seq<ChatMessage>, texts: Seq<char>, existing: Option<Seq<char>>) -> bool {
    &&& msgs.len() == (if existing is Some { 3nat } else { 2nat })
    &&& plain_chat(msgs[0], "system"@, summarize_system_prompt())
    &&& plain_chat(msgs[1], "user"@, transcripts_prompt(texts))
    &&& (existing matches Some(e) ==> plain_chat(msgs[2], "user"@, memory_prompt(e)))
}

fn chat_message(role: &str, content: String) -> (c: ChatMessage)
    ensures
        plain_chat(c, role@, content@),
{
    ChatMessage { role: role.to_owned(), content: Some(content), tool_calls: None, tool_call_id: None }
}

/// The messages that `run_summarization` sends to the model for the
/// collected transcripts and the existing memory.
pub fn summarization_messages(texts: &str, existing: Option<&str>) -> (r: Vec<ChatMessage>)
    requires
        request_cuttable(texts@, opt_str(existing)),
    ensures
        summarization_request(r@, texts@, opt_str(existing)),
{
    let mut r: Vec<ChatMessage> = Vec::new();
    r.push(chat_message("system", "\
You are a knowledge summarization engine. Your task is to analyze conversation histories \
from multiple programming/development sessions and produce a structured long-term memory \
document in markdown format.

Instructions:
1. Read through all provided session transcripts carefully.
2. Identify distinct topics discussed across sessions (e.g., specific features, bugs fixed, \
   architectural decisions, library usage patterns, configuration details, project conventions).
3. For each topic, write a concise but information-dense summary (2-5 paragraphs). Include:
   - What was decided or implemented
   - Specific code patterns, file paths, or configuration values mentioned
   - Rationale behind decisions
   - Any caveats or gotchas discovered
4. Group related information into the same topic block rather than creating many small blocks.
5. At the end of each topic block, add a \"### Cross-References\" section linking to other \
   related topics. Use the format: \"- [Topic: Name](#topic-name) -- relationship description\"
6. Use the following exact format for each topic block (separate blocks with \"---\"):

## Topic: <Descriptive Title>
**Last Updated**: <current datetime>
**Source Sessions**: <number of sessions this topic appeared in>

<summary content>

### Cross-References
- [Topic: Other](#topic-other) -- brief relationship note

7. Do NOT include a top-level \"# Long-Term Memory\" header -- that will be added automatically.
8. Write in English. Be specific and concrete, not vague.
9. If the existing memory already covers a topic, update and enrich it rather than duplicating.".to_owned()));
    let mut user = "Here are the conversation transcripts from past sessions. Summarize them into a long-term memory document.\n\n".to_owned();
    user.append(texts);
    if str_byte_len(user.as_str()) > 120000 {
        let mut cut = prefix_bytes(user.as_str(), 120000);
        cut.append("\n\n[... content truncated due to length ...]");
        user = cut;
    }
    r.push(chat_message("user", user));
    match existing {
        Some(e) => {
            let shown = if str_byte_len(e) > 50000 {
                let mut cut = prefix_bytes(e, 50000);
                cut.append("...\n\n[... existing memory truncated ...]");
                cut
            } else {
                e.to_owned()
            };
            let mut m = "Here is the existing long-term memory for this project. Integrate any new knowledge from the session transcripts above. Update existing topics if new information is available. Add new topics for entirely new subjects.\n\n".to_owned();
            m.append(shown.as_str());
            r.push(chat_message("user", m));
        },
        None => {},
    }
    r
}

/// The text of an optional string slice.
pub open spec fn opt_str(o: Option<&str>) -> Option<Seq<char>> {
    match o {
        Some(s) => Some(s@),
        None => None,
    }
}

/// Whether the request for these texts can be built (the cuts fall between
/// characters).
pub fn request_fits(texts: &str, existing: Option<&str>) -> (b: bool)
    ensures
        b == request_cuttable(texts@, opt_str(existing)),
{
    let mut user = "Here are the conversation transcripts from past sessions. Summarize them into a long-term memory document.\n\n".to_owned();
    user.append(texts);
    if str_byte_len(user.as_str()) > 120000 && !is_char_boundary_exec(user.as_str(), 120000) {
        return false;
    }
    match existing {
        Some(e) => str_byte_len(e) <= 50000 || is_char_boundary_exec(e, 50000),
        None => true,
    }
}

/// The head of the memory document of a project, generated at `now`.
pub open spec fn memory_header(project: Seq<char>, now: Seq<char>) -> Seq<char> {
    "# Long-Term Memory: "@ + project + "\n# Generated: "@ + now
        + "\n#\n# This file is automatically generated. It summarizes accumulated knowledge\n# from past sessions into topic-based knowledge blocks.\n\n---\n\n"@
}

/// The memory document: the head, then the model's summary trimmed.
pub open spec fn memory_document(project: Seq<char>, now: Seq<char>, summary: Seq<char>) -> Seq<char> {
    memory_header(project, now) + trim(summary)
}

/// The text that `run_summarization` saves as `memory.md`.
pub fn memory_document_text(project: &str, now: &str, summary: &str) -> (r: String)
    ensures
        r@ == memory_document(project@, now@, summary@),
{
    let mut r = "# Long-Term Memory: ".to_owned();
    r.append(project);
    r.append("\n# Generated: ");
    r.append(now);
    r.append("\n#\n# This file is automatically generated. It summarizes accumulated knowledge\n# from past sessions into topic-based knowledge blocks.\n\n---\n\n");
    let t = trim_str(summary);
    r.append(t.as_str());
    r
}


// ---------------------------------------------------------------------------
// A summarization run
// ---------------------------------------------------------------------------

/// Where a summarization run stands.
#[derive(Clone, Copy, PartialEq, Eq, Structural)]
pub enum SummaryStage {
    /// Waiting for the transcripts of the saved sessions.
    Collecting,
    /// Waiting for the existing memory document.
    LoadingMemory,
    /// Waiting for the model's summary.
    CallingApi,
    /// Waiting for the memory document to be written.
    Saving,
    /// Waiting for the session files to be removed.
    CleaningUp,
    /// Nothing more to do.
    Finished,
}

/// What the outside world reports to a summarization run.
pub enum SummaryEvent {
    /// The transcripts of all saved sessions, or why they could not be read.
    Collected(Result<String, String>),
    /// The existing memory document, if there is one.
    MemoryLoaded(Option<String>),
    /// The model's summary or the failure of the call, and the current time
    /// in readable form.
    ApiReplied { reply: Result<String, String>, now: String },
    /// Whether the memory document was written.
    Saved(Result<(), String>),
    /// How many session files were removed, or why not all could be.
    Deleted(Result<usize, String>),
}

/// What a summarization run asks the outside world to do next.
pub enum SummaryAction {
    /// Load the existing memory document.
    LoadMemory,
    /// Send these messages to the model.
    CallApi(Vec<ChatMessage>),
    /// Write this text as the memory document.
    Save(String),
    /// Apply the size limit to the memory document, then remove the
    /// session files.
    CleanUp,
    /// Stop.
    Finish,
}

/// A summarization run of a project's sessions.
pub struct Summarizer {
    pub project_name: String,
    pub session_texts: String,
    pub stage: SummaryStage,
}

/// A progress report as `(tag, text)`: tag 0 a token of text, 1 an error,
/// 2 the end of the run.
pub open spec fn notice(e: AgentEvent) -> (nat, Seq<char>) {
    match e {
        AgentEvent::Token(t) => (0, t@),
        AgentEvent::Error(t) => (1, t@),
        AgentEvent::Done => (2, Seq::empty()),
        _ => (3, Seq::empty()),
    }
}

/// The progress reports.
pub open spec fn notices(v: Seq<AgentEvent>) -> Seq<(nat, Seq<char>)> {
    v.map_values(|e: AgentEvent| notice(e))
}

/// The event fits the stage of the run.
pub open spec fn event_expected(stage: SummaryStage, e: SummaryEvent) -> bool {
    match e {
        SummaryEvent::Collected(_) => stage == SummaryStage::Collecting,
        SummaryEvent::MemoryLoaded(_) => stage == SummaryStage::LoadingMemory,
        SummaryEvent::ApiReplied { .. } => stage == SummaryStage::CallingApi,
        SummaryEvent::Saved(_) => stage == SummaryStage::Saving,
        SummaryEvent::Deleted(_) => stage == SummaryStage::CleaningUp,
    }
}

/// The request can be built when the existing memory arrives.
pub open spec fn step_ok(s: Summarizer, e: SummaryEvent) -> bool {
    s.stage == SummaryStage::LoadingMemory ==> (e matches SummaryEvent::MemoryLoaded(m) ==> request_cuttable(
        s.session_texts@,
        opt_view(m),
    ))
}

fn token(t: String) -> (e: AgentEvent)
    ensures
        notice(e) == (0nat, t@),
{
    AgentEvent::Token(t)
}

fn error_event(t: String) -> (e: AgentEvent)
    ensures
        notice(e) == (1nat, t@),
{
    AgentEvent::Error(t)
}

fn joined(a: &str, b: &str, c: &str) -> (r: String)
    ensures
        r@ == a@ + b@ + c@,
{
    let mut r = a.to_owned();
    r.append(b);
    r.append(c);
    r
}

impl Summarizer {
    /// A run for a project that waits for the transcripts.
    pub fn new(project_name: String) -> (s: Summarizer)
        ensures
            s.project_name == project_name,
            s.session_texts@ == Seq::<char>::empty(),
            s.stage == SummaryStage::Collecting,
    {
        Summarizer { project_name, session_texts: String::new(), stage: SummaryStage::Collecting }
    }

    /// The decisions of `run_summarization`: what a reported event leads to,
    /// the progress reports to pass on and the next thing to do. An event
    /// that does not fit the stage changes nothing and stops the run.
    pub fn step(&mut self, event: SummaryEvent) -> (r: (Vec<AgentEvent>, SummaryAction))
        requires
            step_ok(*old(self), event),
        ensures
            final(self).project_name == old(self).project_name,
            !event_expected(old(self).stage, event) ==> {
                &&& *final(self) == *old(self)
                &&& r.0@.len() == 0
                &&& r.1 is Finish
            },
            event_expected(old(self).stage, event) ==> match event {
                SummaryEvent::Collected(Err(e)) => {
                    &&& final(self).stage == SummaryStage::Finished
                    &&& notices(r.0@) == seq![
                        (0nat, "Summarization failed: could not read session files: "@ + e@ + "\n"@),
                        (1nat, "Summarization failed: "@ + e@),
                    ]
                    &&& r.1 is Finish
                },
                SummaryEvent::Collected(Ok(t)) => if trim(t@).len() == 0 {
                    &&& final(self).stage == SummaryStage::Finished
                    &&& notices(r.0@) == seq![(0nat, "No session data to summarize.\n"@), (2nat, Seq::<char>::empty())]
                    &&& r.1 is Finish
                } else {
                    &&& final(self).stage == SummaryStage::LoadingMemory
                    &&& final(self).session_texts@ == t@
                    &&& notices(r.0@) == seq![(0nat, "Collecting session data for summarization...\n"@)]
                    &&& r.1 is LoadMemory
                },
                SummaryEvent::MemoryLoaded(m) => {
                    &&& final(self).stage == SummaryStage::CallingApi
                    &&& final(self).session_texts == old(self).session_texts
                    &&& notices(r.0@) == seq![(0nat, "Calling API to generate long-term memory summary...\n"@)]
                    &&& r.1 matches SummaryAction::CallApi(msgs)
                    &&& summarization_request(msgs@, old(self).session_texts@, opt_view(m))
                },
                SummaryEvent::ApiReplied { reply: Err(e), .. } => {
                    &&& final(self).stage == SummaryStage::Finished
                    &&& notices(r.0@) == seq![
                        (0nat, "Summarization API call failed: "@ + e@ + "\n"@),
                        (1nat, "Summarization failed: "@ + e@),
                    ]
                    &&& r.1 is Finish
                },
                SummaryEvent::ApiReplied { reply: Ok(summary), now } => {
                    &&& final(self).stage == SummaryStage::Saving
                    &&& notices(r.0@) == seq![(0nat, "Summary generated. Writing memory.md...\n"@)]
                    &&& r.1 matches SummaryAction::Save(doc)
                    &&& doc@ == memory_document(old(self).project_name@, now@, summary@)
                },
                SummaryEvent::Saved(Err(e)) => {
                    &&& final(self).stage == SummaryStage::Finished
                    &&& notices(r.0@) == seq![
                        (0nat, "Failed to save memory.md: "@ + e@ + "\n"@),
                        (1nat, "Failed to save memory: "@ + e@),
                    ]
                    &&& r.1 is Finish
                },
                SummaryEvent::Saved(Ok(())) => {
                    &&& final(self).stage == SummaryStage::CleaningUp
                    &&& r.0@.len() == 0
                    &&& r.1 is CleanUp
                },
                SummaryEvent::Deleted(d) => {
                    let n: nat = match d { Ok(n) => n as nat, Err(_) => 0 };
                    &&& final(self).stage == SummaryStage::Finished
                    &&& notices(r.0@) == seq![
                        (0nat, "Long-term memory updated. Deleted "@ + decimal(n) + " session file(s).\n"@),
                        (2nat, Seq::<char>::empty()),
                    ]
                    &&& r.1 is Finish
                },
            },
    {
        let mut out: Vec<AgentEvent> = Vec::new();
        match event {
            SummaryEvent::Collected(c) => {
                if self.stage != SummaryStage::Collecting {
                    return (out, SummaryAction::Finish);
                }
                match c {
                    Err(e) => {
                        out.push(token(joined("Summarization failed: could not read session files: ", e.as_str(), "\n")));
                        out.push(error_event(joined("Summarization failed: ", e.as_str(), "")));
                        self.stage = SummaryStage::Finished;
                        proof { reveal_strlit(""); }
                        assert(notices(out@) =~= seq![
                            (0nat, "Summarization failed: could not read session files: "@ + e@ + "\n"@),
                            (1nat, "Summarization failed: "@ + e@),
                        ]);
                        (out, SummaryAction::Finish)
                    },
                    Ok(t) => {
                        let tt = trim_str(t.as_str());
                        if tt.as_str().is_empty() {
                            out.push(token("No session data to summarize.\n".to_owned()));
                            out.push(AgentEvent::Done);
                            self.stage = SummaryStage::Finished;
                            assert(notices(out@) =~= seq![(0nat, "No session data to summarize.\n"@), (2nat, Seq::<char>::empty())]);
                            (out, SummaryAction::Finish)
                        } else {
                            out.push(token("Collecting session data for summarization...\n".to_owned()));
                            self.session_texts = t;
                            self.stage = SummaryStage::LoadingMemory;
                            assert(notices(out@) =~= seq![(0nat, "Collecting session data for summarization...\n"@)]);
                            (out, SummaryAction::LoadMemory)
                        }
                    },
                }
            },
            SummaryEvent::MemoryLoaded(m) => {
                if self.stage != SummaryStage::LoadingMemory {
                    return (out, SummaryAction::Finish);
                }
                let msgs = match &m {
                    Some(e) => summarization_messages(self.session_texts.as_str(), Some(e.as_str())),
                    None => summarization_messages(self.session_texts.as_str(), None),
                };
                out.push(token("Calling API to generate long-term memory summary...\n".to_owned()));
                self.stage = SummaryStage::CallingApi;
                assert(notices(out@) =~= seq![(0nat, "Calling API to generate long-term memory summary...\n"@)]);
                (out, SummaryAction::CallApi(msgs))
            },
            SummaryEvent::ApiReplied { reply, now } => {
                if self.stage != SummaryStage::CallingApi {
                    return (out, SummaryAction::Finish);
                }
                match reply {
                    Err(e) => {
                        out.push(token(joined("Summarization API call failed: ", e.as_str(), "\n")));
                        out.push(error_event(joined("Summarization failed: ", e.as_str(), "")));
                        self.stage = SummaryStage::Finished;
                        proof { reveal_strlit(""); }
                        assert(notices(out@) =~= seq![
                            (0nat, "Summarization API call failed: "@ + e@ + "\n"@),
                            (1nat, "Summarization failed: "@ + e@),
                        ]);
                        (out, SummaryAction::Finish)
                    },
                    Ok(summary) => {
                        let doc = memory_document_text(self.project_name.as_str(), now.as_str(), summary.as_str());
                        out.push(token("Summary generated. Writing memory.md...\n".to_owned()));
                        self.stage = SummaryStage::Saving;
                        assert(notices(out@) =~= seq![(0nat, "Summary generated. Writing memory.md...\n"@)]);
                        (out, SummaryAction::Save(doc))
                    },
                }
            },
            SummaryEvent::Saved(res) => {
                if self.stage != SummaryStage::Saving {
                    return (out, SummaryAction::Finish);
                }
                match res {
                    Err(e) => {
                        out.push(token(joined("Failed to save memory.md: ", e.as_str(), "\n")));
                        out.push(error_event(joined("Failed to save memory: ", e.as_str(), "")));
                        self.stage = SummaryStage::Finished;
                        proof { reveal_strlit(""); }
                        assert(notices(out@) =~= seq![
                            (0nat, "Failed to save memory.md: "@ + e@ + "\n"@),
                            (1nat, "Failed to save memory: "@ + e@),
                        ]);
                        (out, SummaryAction::Finish)
                    },
                    Ok(()) => {
                        self.stage = SummaryStage::CleaningUp;
                        (out, SummaryAction::CleanUp)
                    },
                }
            },
            SummaryEvent::Deleted(d) => {
                if self.stage != SummaryStage::CleaningUp {
                    return (out, SummaryAction::Finish);
                }
                let n: usize = match d {
                    Ok(n) => n,
                    Err(_) => 0,
                };
                let ns = decimal_string(n as u64);
                out.push(token(joined("Long-term memory updated. Deleted ", ns.as_str(), " session file(s).\n")));
                out.push(AgentEvent::Done);
                self.stage = SummaryStage::Finished;
                assert(notices(out@) =~= seq![
                    (0nat, "Long-term memory updated. Deleted "@ + decimal(n as nat) + " session file(s).\n"@),
                    (2nat, Seq::<char>::empty()),
                ]);
                (out, SummaryAction::Finish)
            },
        }
    }
}

} // verus!
