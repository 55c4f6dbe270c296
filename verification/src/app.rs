//! Conversation state of the terminal agent: messages, the input line with
//! its cursor, scrolling, and the events that an agent run sends back.

use vstd::prelude::*;
use crate::config::Config;
use crate::text::{
    byte_len, char_at_byte, char_boundary, char_index_at_byte, char_len_utf8, char_width, chars_for_bytes,
    chars_in_bytes, chars_of, class_pred, rspan, rspan_in, slice_range, str_byte_len, string_of, trim,
    trim_str, CharClass, lemma_chars_in_bytes, lemma_byte_len_take_mono, byte_len_range,
    lemma_byte_len_push, lemma_char_at_byte, lemma_char_at_byte_unique, lemma_rspan_le, lemma_byte_len_take,
};

verus! {

/// One entry of the conversation.
#[derive(Clone)]
pub struct Message {
    pub role: MessageRole,
    pub content: String,
    pub tool_calls: Option<Vec<ToolCall>>,
    pub tool_call_id: Option<String>,
    pub tool_result_error: bool,
}

/// A tool call that the model asked for.
#[derive(Clone, Debug)]
pub struct ToolCall {
    pub id: String,
    pub name: String,
    pub arguments: String,
}

/// A tool call whose arguments are still streaming in.
pub struct PendingToolCall {
    pub id: String,
    pub arguments: String,
}

/// Who a message is from.
#[derive(Clone, Copy, Debug, PartialEq, Eq, Structural)]
pub enum MessageRole {
    User,
    Agent,
    System,
    Tool,
}

/// Working mode of a session.
#[derive(Clone, Copy, Debug, PartialEq, Eq, Structural)]
pub enum Mode {
    Plan,
    Build,
}

/// What an agent run reports to the conversation.
pub enum AgentEvent {
    Token(String),
    ToolCallStart { id: String, name: String },
    ToolCallArg { id: String, args: String },
    ToolCallEnd { id: String, name: String, arguments: String, result: String, is_error: bool },
    Done,
    Error(String),
}

/// `m` is a message from `role` with text `content` and nothing else.
pub open spec fn is_plain(m: Message, role: MessageRole, content: Seq<char>) -> bool {
    &&& m.role == role
    &&& m.content@ == content
    &&& m.tool_calls is None
    &&& m.tool_call_id is None
    &&& !m.tool_result_error
}

/// A message that holds only a role and a text.
pub fn plain_message(role: MessageRole, content: String) -> (m: Message)
    ensures
        is_plain(m, role, content@),
{
    Message { role, content, tool_calls: None, tool_call_id: None, tool_result_error: false }
}

/// The text of the welcome message.
pub open spec fn welcome_text() -> Seq<char> {
    "Welcome to Zero Code CLI. Type /help for available commands."@
}

/// `new` adds `token` to the conversation: appended to the last message when
/// that one is from the agent, otherwise as a new agent message.
pub open spec fn token_appended(old: Seq<Message>, new: Seq<Message>, token: Seq<char>) -> bool {
    if old.len() > 0 && old.last().role == MessageRole::Agent {
        &&& new.len() == old.len()
        &&& new.drop_last() == old.drop_last()
        &&& new.last().role == MessageRole::Agent
        &&& new.last().content@ == old.last().content@ + token
        &&& new.last().tool_calls == old.last().tool_calls
        &&& new.last().tool_call_id == old.last().tool_call_id
        &&& new.last().tool_result_error == old.last().tool_result_error
    } else {
        &&& new.len() == old.len() + 1
        &&& new.drop_last() == old
        &&& is_plain(new.last(), MessageRole::Agent, token)
    }
}

/// `new` is `old` with one plain message from `role` added.
pub open spec fn message_added(old: Seq<Message>, new: Seq<Message>, role: MessageRole, content: Seq<char>) -> bool {
    &&& new.len() == old.len() + 1
    &&& new.drop_last() == old
    &&& is_plain(new.last(), role, content)
}

/// Pending tool calls as `(id, arguments)` pairs.
pub open spec fn pending_view(p: Seq<PendingToolCall>) -> Seq<(Seq<char>, Seq<char>)> {
    p.map_values(|c: PendingToolCall| (c.id@, c.arguments@))
}

/// Index of the first pending call with the given id, or -1.
pub open spec fn first_with_id(p: Seq<(Seq<char>, Seq<char>)>, id: Seq<char>) -> int
    decreases p.len(),
{
    if p.len() == 0 {
        -1
    } else if p[0].0 == id {
        0
    } else {
        let r = first_with_id(p.drop_first(), id);
        if r < 0 { -1 } else { r + 1 }
    }
}

/// Pending calls after more arguments arrive for `id`: the first call with
/// that id gets them appended; without such a call nothing changes.
pub open spec fn args_appended(p: Seq<(Seq<char>, Seq<char>)>, id: Seq<char>, args: Seq<char>) -> Seq<(Seq<char>, Seq<char>)> {
    let i = first_with_id(p, id);
    if i < 0 {
        p
    } else {
        p.update(i, (p[i].0, p[i].1 + args))
    }
}

/// Pending calls other than those with id `id`, in order.
pub open spec fn without_id(p: Seq<(Seq<char>, Seq<char>)>, id: Seq<char>) -> Seq<(Seq<char>, Seq<char>)>
    decreases p.len(),
{
    if p.len() == 0 {
        seq![]
    } else {
        let rest = without_id(p.drop_last(), id);
        if p.last().0 == id { rest } else { rest.push(p.last()) }
    }
}

/// The conversation after a tool call finished: a message that shows the
/// call, `name(arguments)`, then a message with its result.
pub open spec fn tool_call_recorded(
    old: Seq<Message>,
    new: Seq<Message>,
    id: Seq<char>,
    name: Seq<char>,
    arguments: Seq<char>,
    result: Seq<char>,
    is_error: bool,
) -> bool {
    &&& new.len() == old.len() + 2
    &&& new.take(old.len() as int) == old
    &&& new[old.len() as int].role == MessageRole::Tool
    &&& new[old.len() as int].content@ == name + "("@ + arguments + ")"@
    &&& new[old.len() as int].tool_calls matches Some(tcs) && tcs@.len() == 1 && tcs@[0].id@ == id
        && tcs@[0].name@ == name && tcs@[0].arguments@ == arguments
    &&& new[old.len() as int].tool_call_id is None
    &&& !new[old.len() as int].tool_result_error
    &&& new[old.len() + 1int].role == MessageRole::Tool
    &&& new[old.len() + 1int].content@ == result
    &&& new[old.len() + 1int].tool_calls is None
    &&& new[old.len() + 1int].tool_call_id matches Some(i) && i@ == id
    &&& new[old.len() + 1int].tool_result_error == is_error
}

/// Everything but the input line and its cursor is the same in `a` and `b`.
pub open spec fn same_but_input(a: App, b: App) -> bool {
    &&& a.messages == b.messages
    &&& a.scroll_offset == b.scroll_offset
    &&& a.should_quit == b.should_quit
    &&& a.streaming == b.streaming
    &&& a.agent_active == b.agent_active
    &&& a.config == b.config
    &&& a.pending_tool_calls == b.pending_tool_calls
}

/// The cursor stands at a character boundary of the input line.
pub open spec fn cursor_ok(a: App) -> bool {
    &&& a.cursor_pos <= byte_len(a.input@)
    &&& char_boundary(a.input@, a.cursor_pos as int)
}

/// The input line leaves room for one more character.
pub open spec fn room_ok(a: App) -> bool {
    byte_len(a.input@) + 4 <= usize::MAX
}

/// `b` is `a` after typing `c`: the character goes in at the cursor (or at
/// the end when the cursor lies beyond it) and the cursor moves after it.
pub open spec fn char_typed(a: App, b: App, c: char) -> bool {
    let s = a.input@;
    let pos = if a.cursor_pos < byte_len(s) { a.cursor_pos as int } else { byte_len(s) as int };
    let k = chars_in_bytes(s, pos);
    &&& b.input@ == s.take(k).push(c) + s.skip(k)
    &&& b.cursor_pos == pos + char_width(c)
    &&& same_but_input(a, b)
}

/// `b` is `a` after a backspace: the character whose bytes hold the byte
/// before the cursor goes, and the cursor moves to where it began; nothing
/// happens at the start of the line.
pub open spec fn char_deleted(a: App, b: App) -> bool {
    &&& a.cursor_pos == 0 ==> b == a
    &&& a.cursor_pos > 0 ==> ({
        let s = a.input@;
        let k = char_at_byte(s, a.cursor_pos - 1);
        &&& b.input@ == s.take(k) + s.skip(k + 1)
        &&& b.cursor_pos == byte_len(s.take(k))
    })
    &&& same_but_input(a, b)
}

/// `b` is `a` after deleting the word before the cursor: the spaces before
/// it and the word before them go.
pub open spec fn word_deleted(a: App, b: App) -> bool {
    &&& a.cursor_pos == 0 ==> b == a
    &&& a.cursor_pos > 0 ==> ({
        let s = a.input@;
        let k = chars_in_bytes(s, a.cursor_pos as int);
        let j = word_start(s, k);
        &&& b.input@ == s.take(j) + s.skip(k)
        &&& b.cursor_pos == byte_len(s.take(j))
    })
    &&& same_but_input(a, b)
}

/// `b` is `a` with the cursor at `pos`.
pub open spec fn cursor_moved(a: App, b: App, pos: int) -> bool {
    &&& b.input == a.input
    &&& b.cursor_pos == pos
    &&& same_but_input(a, b)
}

/// `b` is `a` scrolled to `offset`.
pub open spec fn scrolled(a: App, b: App, offset: int) -> bool {
    &&& b.scroll_offset == offset
    &&& b.messages == a.messages
    &&& b.input == a.input
    &&& b.cursor_pos == a.cursor_pos
    &&& b.should_quit == a.should_quit
    &&& b.streaming == a.streaming
    &&& b.agent_active == a.agent_active
    &&& b.config == a.config
    &&& b.pending_tool_calls == a.pending_tool_calls
}

/// Character index at which the word before character `k` of `s` starts:
/// back over spaces, then back over what is not a space.
pub open spec fn word_start(s: Seq<char>, k: int) -> int {
    let a = k - rspan(s.take(k), class_pred(CharClass::Space));
    a - rspan(s.take(a), class_pred(CharClass::NotSpace))
}

/// Byte offset of the cursor after moving one character left from `cur`.
pub open spec fn cursor_left(s: Seq<char>, cur: int) -> int {
    if cur == 0 {
        0
    } else if cur - 1 >= byte_len(s) {
        byte_len(s) as int
    } else {
        byte_len(s.take(char_at_byte(s, cur - 1))) as int
    }
}

/// Byte offset of the cursor after moving one character right from `cur`.
pub open spec fn cursor_right(s: Seq<char>, cur: int) -> int {
    if cur < byte_len(s) {
        byte_len(s.take(char_at_byte(s, cur) + 1)) as int
    } else {
        cur
    }
}

/// A key of the keyboard, as far as the conversation screen tells keys
/// apart.
#[derive(Clone, Copy, PartialEq, Eq, Structural)]
pub enum Key {
    Char(char),
    Enter,
    Backspace,
    Tab,
    Left,
    Right,
    Home,
    End,
    Up,
    Down,
    PageUp,
    PageDown,
    Other,
}

/// A key press: the key and whether Ctrl was held.
#[derive(Clone, Copy, PartialEq, Eq, Structural)]
pub struct KeyPress {
    pub key: Key,
    pub ctrl: bool,
}

/// Lines that one page of scrolling moves.
pub const PAGE_LINES: u16 = 5;

/// `b` is `a` with `should_quit` set.
pub open spec fn quit_set(a: App, b: App) -> bool {
    &&& b.should_quit
    &&& b.messages == a.messages
    &&& b.input == a.input
    &&& b.cursor_pos == a.cursor_pos
    &&& b.scroll_offset == a.scroll_offset
    &&& b.streaming == a.streaming
    &&& b.agent_active == a.agent_active
    &&& b.config == a.config
    &&& b.pending_tool_calls == a.pending_tool_calls
}

/// What a key press does to the screen `a`, giving `b`, and what it
/// returns: the text of a message sent to the agent, if any.
pub open spec fn key_handled(a: App, k: KeyPress, b: App, sent: Option<String>) -> bool {
    if k.ctrl && k.key == Key::Char('c') {
        quit_set(a, b) && sent is None
    } else if k.ctrl && k.key == Key::Char('d') {
        quit_set(a, b) && sent is None
    } else {
        match k.key {
            Key::Enter => match sent {
                None => {
                    &&& (trim(a.input@).len() == 0 || a.streaming || a.agent_active)
                    &&& b == a
                },
                Some(msg) => {
                    &&& trim(a.input@).len() > 0 && !a.streaming && !a.agent_active
                    &&& msg@ == trim(a.input@)
                    &&& message_added(a.messages@, b.messages@, MessageRole::User, msg@)
                    &&& b.input@ == Seq::<char>::empty()
                    &&& b.cursor_pos == 0
                    &&& b.streaming
                    &&& b.agent_active
                    &&& b.scroll_offset == a.scroll_offset
                    &&& b.should_quit == a.should_quit
                    &&& b.config == a.config
                    &&& b.pending_tool_calls == a.pending_tool_calls
                },
            },
            Key::Backspace => sent is None && (if a.agent_active { b == a } else { char_deleted(a, b) }),
            Key::Char(c) => sent is None && (if a.agent_active {
                b == a
            } else if k.ctrl && c == 'w' {
                word_deleted(a, b)
            } else {
                char_typed(a, b, c)
            }),
            Key::Left => sent is None && cursor_moved(a, b, cursor_left(a.input@, a.cursor_pos as int)),
            Key::Right => sent is None && cursor_moved(a, b, cursor_right(a.input@, a.cursor_pos as int)),
            Key::Home => sent is None && cursor_moved(a, b, 0),
            Key::End => sent is None && cursor_moved(a, b, byte_len(a.input@) as int),
            Key::Up => sent is None && scrolled(a, b, if a.scroll_offset < u16::MAX { a.scroll_offset + 1 } else { u16::MAX as int }),
            Key::Down => sent is None && scrolled(a, b, if a.scroll_offset > 0 { a.scroll_offset - 1 } else { 0 }),
            Key::PageUp => sent is None && scrolled(a, b, if a.scroll_offset + 5 <= u16::MAX { a.scroll_offset + 5 } else { u16::MAX as int }),
            Key::PageDown => sent is None && scrolled(a, b, if a.scroll_offset >= 5 { a.scroll_offset - 5 } else { 0 }),
            _ => sent is None && b == a,
        }
    }
}

/// The state of the conversation screen.
pub struct App {
    pub messages: Vec<Message>,
    pub input: String,
    pub cursor_pos: usize,
    pub scroll_offset: u16,
    pub should_quit: bool,
    pub streaming: bool,
    pub agent_active: bool,
    pub config: Config,
    pub pending_tool_calls: Vec<PendingToolCall>,
}

impl App {
    /// Tool calls whose arguments are still arriving, as `(id, arguments)`.
    pub open spec fn pending(&self) -> Seq<(Seq<char>, Seq<char>)> {
        pending_view(self.pending_tool_calls@)
    }

    /// `new`: a conversation that holds only the welcome message.
    pub fn new(config: Config) -> (app: App)
        ensures
            app.messages@.len() == 1,
            is_plain(app.messages@[0], MessageRole::System, welcome_text()),
            app.input@ == Seq::<char>::empty(),
            app.cursor_pos == 0,
            app.scroll_offset == 0,
            !app.should_quit,
            !app.streaming,
            !app.agent_active,
            app.config == config,
            app.pending() == Seq::<(Seq<char>, Seq<char>)>::empty(),
    {
        let mut messages: Vec<Message> = Vec::new();
        messages.push(plain_message(
            MessageRole::System,
            "Welcome to Zero Code CLI. Type /help for available commands.".to_owned(),
        ));
        let app = App {
            messages,
            input: String::new(),
            cursor_pos: 0,
            scroll_offset: 0,
            should_quit: false,
            streaming: false,
            agent_active: false,
            config,
            pending_tool_calls: Vec::new(),
        };
        assert(app.pending() =~= Seq::<(Seq<char>, Seq<char>)>::empty());
        app
    }

    /// `send_message`: takes the trimmed input as a user message when it is
    /// not empty and no agent is at work; the input is then cleared and an
    /// agent run begins.
    pub fn send_message(&mut self) -> (r: Option<String>)
        ensures
            match r {
                None => {
                    &&& (trim(old(self).input@).len() == 0 || old(self).streaming || old(self).agent_active)
                    &&& *final(self) == *old(self)
                },
                Some(msg) => {
                    &&& trim(old(self).input@).len() > 0 && !old(self).streaming && !old(self).agent_active
                    &&& msg@ == trim(old(self).input@)
                    &&& message_added(old(self).messages@, final(self).messages@, MessageRole::User, msg@)
                    &&& final(self).input@ == Seq::<char>::empty()
                    &&& final(self).cursor_pos == 0
                    &&& final(self).streaming
                    &&& final(self).agent_active
                    &&& final(self).scroll_offset == old(self).scroll_offset
                    &&& final(self).should_quit == old(self).should_quit
                    &&& final(self).config == old(self).config
                    &&& final(self).pending_tool_calls == old(self).pending_tool_calls
                },
            },
    {
        let msg = trim_str(self.input.as_str());
        if msg.as_str().is_empty() || self.streaming || self.agent_active {
            return None;
        }
        let content = msg.clone();
        let ghost old_msgs = self.messages@;
        self.messages.push(plain_message(MessageRole::User, content));
        assert(self.messages@.drop_last() =~= old_msgs);
        self.input = String::new();
        self.cursor_pos = 0;
        self.streaming = true;
        self.agent_active = true;
        Some(msg)
    }

    /// `append_agent_token`: adds a streamed token to the agent's answer.
    pub fn append_agent_token(&mut self, token: &str)
        ensures
            token_appended(old(self).messages@, final(self).messages@, token@),
            final(self).streaming,
            final(self).input == old(self).input,
            final(self).cursor_pos == old(self).cursor_pos,
            final(self).scroll_offset == old(self).scroll_offset,
            final(self).should_quit == old(self).should_quit,
            final(self).agent_active == old(self).agent_active,
            final(self).config == old(self).config,
            final(self).pending() == old(self).pending(),
    {
        self.streaming = true;
        let n = self.messages.len();
        if n > 0 && self.messages[n - 1].role == MessageRole::Agent {
            let ghost old_msgs = self.messages@;
            let mut last = self.messages.pop().unwrap();
            last.content.append(token);
            self.messages.push(last);
            assert(self.messages@.drop_last() =~= old_msgs.drop_last());
            return;
        }
        let ghost old_msgs = self.messages@;
        self.messages.push(plain_message(MessageRole::Agent, token.to_owned()));
        assert(self.messages@.drop_last() =~= old_msgs);
    }

    /// `add_system_message`: adds a note from the application.
    pub fn add_system_message(&mut self, text: &str)
        ensures
            message_added(old(self).messages@, final(self).messages@, MessageRole::System, text@),
            final(self).input == old(self).input,
            final(self).cursor_pos == old(self).cursor_pos,
            final(self).scroll_offset == old(self).scroll_offset,
            final(self).should_quit == old(self).should_quit,
            final(self).streaming == old(self).streaming,
            final(self).agent_active == old(self).agent_active,
            final(self).config == old(self).config,
            final(self).pending() == old(self).pending(),
    {
        let ghost old_msgs = self.messages@;
        self.messages.push(plain_message(MessageRole::System, text.to_owned()));
        assert(self.messages@.drop_last() =~= old_msgs);
    }

    /// `handle_agent_event`: applies what an agent run reports.
    pub fn handle_agent_event(&mut self, event: AgentEvent)
        ensures
            final(self).input == old(self).input,
            final(self).cursor_pos == old(self).cursor_pos,
            final(self).scroll_offset == old(self).scroll_offset,
            final(self).should_quit == old(self).should_quit,
            final(self).config == old(self).config,
            match event {
                AgentEvent::Token(token) => {
                    &&& token_appended(old(self).messages@, final(self).messages@, token@)
                    &&& final(self).streaming
                    &&& final(self).agent_active == old(self).agent_active
                    &&& final(self).pending() == old(self).pending()
                },
                AgentEvent::ToolCallStart { id, name } => {
                    &&& final(self).messages@ == old(self).messages@
                    &&& final(self).streaming == old(self).streaming
                    &&& final(self).agent_active == old(self).agent_active
                    &&& final(self).pending() == old(self).pending().push((id@, Seq::<char>::empty()))
                },
                AgentEvent::ToolCallArg { id, args } => {
                    &&& final(self).messages@ == old(self).messages@
                    &&& final(self).streaming == old(self).streaming
                    &&& final(self).agent_active == old(self).agent_active
                    &&& final(self).pending() == args_appended(old(self).pending(), id@, args@)
                },
                AgentEvent::ToolCallEnd { id, name, arguments, result, is_error } => {
                    &&& tool_call_recorded(old(self).messages@, final(self).messages@, id@, name@, arguments@, result@, is_error)
                    &&& final(self).streaming == old(self).streaming
                    &&& final(self).agent_active == old(self).agent_active
                    &&& final(self).pending() == without_id(old(self).pending(), id@)
                },
                AgentEvent::Done => {
                    &&& final(self).messages@ == old(self).messages@
                    &&& !final(self).streaming
                    &&& !final(self).agent_active
                    &&& final(self).pending() == old(self).pending()
                },
                AgentEvent::Error(err) => {
                    &&& message_added(old(self).messages@, final(self).messages@, MessageRole::System, "Error: "@ + err@)
                    &&& !final(self).streaming
                    &&& !final(self).agent_active
                    &&& final(self).pending() == old(self).pending()
                },
            },
    {
        match event {
            AgentEvent::Token(token) => {
                self.append_agent_token(token.as_str());
            },
            AgentEvent::ToolCallStart { id, name: _name } => {
                let ghost old_p = self.pending_tool_calls@;
                self.pending_tool_calls.push(PendingToolCall { id, arguments: String::new() });
                assert(pending_view(self.pending_tool_calls@) =~= pending_view(old_p).push((id@, Seq::<char>::empty())));
            },
            AgentEvent::ToolCallArg { id, args } => {
                let ghost old_p = self.pending_tool_calls@;
                let mut i: usize = 0;
                while i < self.pending_tool_calls.len() && self.pending_tool_calls[i].id != id
                    invariant
                        self.pending_tool_calls@ == old_p,
                        i <= old_p.len(),
                        forall|j: int| 0 <= j < i ==> (#[trigger] pending_view(old_p)[j]).0 != id@,
                    decreases old_p.len() - i,
                {
                    i += 1;
                }
                proof {
                    lemma_first_with_id(pending_view(old_p), id@, i as int);
                }
                if i < self.pending_tool_calls.len() {
                    let mut tc = self.pending_tool_calls.remove(i);
                    tc.arguments.append(args.as_str());
                    self.pending_tool_calls.insert(i, tc);
                    assert(pending_view(self.pending_tool_calls@) =~= args_appended(pending_view(old_p), id@, args@));
                }
            },
            AgentEvent::ToolCallEnd { id, name, arguments, result, is_error } => {
                let ghost old_p = self.pending_tool_calls@;
                let mut kept: Vec<PendingToolCall> = Vec::new();
                let mut old_calls: Vec<PendingToolCall> = Vec::new();
                std::mem::swap(&mut old_calls, &mut self.pending_tool_calls);
                let mut i: usize = 0;
                let total = old_calls.len();
                assert(pending_view(old_p).take(0) =~= Seq::<(Seq<char>, Seq<char>)>::empty());
                assert(pending_view(kept@) =~= Seq::<(Seq<char>, Seq<char>)>::empty());
                while old_calls.len() > 0
                    invariant
                        total == old_p.len(),
                        i + old_calls@.len() == old_p.len(),
                        old_calls@ == old_p.skip(i as int),
                        pending_view(kept@) == without_id(pending_view(old_p).take(i as int), id@),
                    decreases old_calls@.len(),
                {
                    let tc = old_calls.remove(0);
                    let ghost pv = pending_view(old_p);
                    proof {
                        assert(pv.take(i + 1).drop_last() =~= pv.take(i as int));
                        assert(pv.take(i + 1).last() == (tc.id@, tc.arguments@));
                    }
                    if tc.id != id {
                        let ghost old_k = kept@;
                        kept.push(tc);
                        assert(pending_view(kept@) =~= pending_view(old_k).push(pv[i as int]));
                    }
                    assert(old_calls@ =~= old_p.skip(i + 1));
                    i += 1;
                }
                assert(pending_view(old_p).take(old_p.len() as int) =~= pending_view(old_p));
                self.pending_tool_calls = kept;
                let ghost old_msgs = self.messages@;
                let mut shown = name.clone();
                shown.append("(");
                shown.append(arguments.as_str());
                shown.append(")");
                let mut calls: Vec<ToolCall> = Vec::new();
                let call_id = id.clone();
                calls.push(ToolCall { id: call_id, name, arguments });
                self.messages.push(Message {
                    role: MessageRole::Tool,
                    content: shown,
                    tool_calls: Some(calls),
                    tool_call_id: None,
                    tool_result_error: false,
                });
                self.messages.push(Message {
                    role: MessageRole::Tool,
                    content: result,
                    tool_calls: None,
                    tool_call_id: Some(id),
                    tool_result_error: is_error,
                });
                assert(self.messages@.take(old_msgs.len() as int) =~= old_msgs);
            },
            AgentEvent::Done => {
                self.agent_active = false;
                self.streaming = false;
            },
            AgentEvent::Error(err) => {
                let mut text = "Error: ".to_owned();
                text.append(err.as_str());
                self.add_system_message(text.as_str());
                self.agent_active = false;
                self.streaming = false;
            },
        }
    }

    /// `scroll_up`: one line further back, stopping at the limit of `u16`.
    pub fn scroll_up(&mut self)
        ensures
            scrolled(*old(self), *final(self), if old(self).scroll_offset < u16::MAX { old(self).scroll_offset + 1 } else { u16::MAX as int }),
    {
        self.scroll_offset = self.scroll_offset.saturating_add(1);
    }

    /// `scroll_down`: one line forward, stopping at the newest line.
    pub fn scroll_down(&mut self)
        ensures
            scrolled(*old(self), *final(self), if old(self).scroll_offset > 0 { old(self).scroll_offset - 1 } else { 0 }),
    {
        self.scroll_offset = self.scroll_offset.saturating_sub(1);
    }

    /// `scroll_up_page`: `page_size` lines further back, saturating.
    pub fn scroll_up_page(&mut self, page_size: u16)
        ensures
            scrolled(*old(self), *final(self), if old(self).scroll_offset + page_size <= u16::MAX { old(self).scroll_offset + page_size } else { u16::MAX as int }),
    {
        self.scroll_offset = self.scroll_offset.saturating_add(page_size);
    }

    /// `scroll_down_page`: `page_size` lines forward, stopping at zero.
    pub fn scroll_down_page(&mut self, page_size: u16)
        ensures
            scrolled(*old(self), *final(self), if old(self).scroll_offset >= page_size { old(self).scroll_offset - page_size } else { 0 }),
    {
        self.scroll_offset = self.scroll_offset.saturating_sub(page_size);
    }

    /// `input_mode`: the label of the status bar.
    pub fn input_mode(&self) -> (r: &'static str)
        ensures
            r@ == (if self.agent_active { "AGENT"@ } else { "INSERT"@ }),
    {
        if self.agent_active {
            "AGENT"
        } else {
            "INSERT"
        }
    }

    /// `input_char`: types `c` at the cursor (or at the end when the cursor
    /// lies beyond it) and moves the cursor after it.
    pub fn input_char(&mut self, c: char)
        requires
            old(self).cursor_pos >= byte_len(old(self).input@) || char_boundary(old(self).input@, old(self).cursor_pos as int),
            byte_len(old(self).input@) + 4 <= usize::MAX,
        ensures
            char_typed(*old(self), *final(self), c),
    {
        let v = chars_of(self.input.as_str());
        let n = str_byte_len(self.input.as_str());
        let pos = if self.cursor_pos < n { self.cursor_pos } else { n };
        proof {
            lemma_chars_in_bytes(v@, v@.len() as int);
            assert(v@.take(v@.len() as int) =~= v@);
        }
        let k = match chars_for_bytes(v.as_slice(), pos) {
            Some(k) => k,
            None => {
                proof {
                    assert(false);
                }
                0
            },
        };
        let mut s = string_of(slice_range(v.as_slice(), 0, k));
        s.push(c);
        let rest = string_of(slice_range(v.as_slice(), k, v.len()));
        s.append(rest.as_str());
        assert(v@.subrange(0, k as int) =~= v@.take(k as int));
        assert(v@.subrange(k as int, v@.len() as int) =~= v@.skip(k as int));
        self.input = s;
        self.cursor_pos = pos + char_len_utf8(c);
    }

    /// `delete_char`: removes the character before the cursor, the one whose
    /// bytes hold the byte just before it, and moves the cursor to its start.
    pub fn delete_char(&mut self)
        requires
            old(self).cursor_pos > 0 ==> old(self).cursor_pos <= byte_len(old(self).input@),
        ensures
            char_deleted(*old(self), *final(self)),
    {
        if self.cursor_pos > 0 {
            let v = chars_of(self.input.as_str());
            let vl = v.len();
            let (k, start) = char_index_at_byte(v.as_slice(), self.cursor_pos - 1);
            let mut s = string_of(slice_range(v.as_slice(), 0, k));
            let rest = string_of(slice_range(v.as_slice(), k + 1, vl));
            s.append(rest.as_str());
            assert(v@.subrange(0, k as int) =~= v@.take(k as int));
            assert(v@.subrange(k + 1, v@.len() as int) =~= v@.skip(k + 1));
            self.input = s;
            self.cursor_pos = start;
        }
    }

    /// `delete_word`: removes the spaces before the cursor and the word
    /// before them.
    pub fn delete_word(&mut self)
        requires
            old(self).cursor_pos > 0 ==> char_boundary(old(self).input@, old(self).cursor_pos as int),
        ensures
            word_deleted(*old(self), *final(self)),
    {
        if self.cursor_pos == 0 {
            return;
        }
        let v = chars_of(self.input.as_str());
        let n = str_byte_len(self.input.as_str());
        let k = match chars_for_bytes(v.as_slice(), self.cursor_pos) {
            Some(k) => k,
            None => {
                proof {
                    assert(false);
                }
                0
            },
        };
        let sp = rspan_in(v.as_slice(), 0, k, CharClass::Space);
        let a = k - sp;
        let ns = rspan_in(v.as_slice(), 0, a, CharClass::NotSpace);
        let j = a - ns;
        proof {
            assert(v@.subrange(0, k as int) =~= v@.take(k as int));
            assert(v@.subrange(0, a as int) =~= v@.take(a as int));
            assert(v@.subrange(0, j as int) =~= v@.take(j as int));
            lemma_byte_len_take_mono(v@, j as int, v@.len() as int);
            assert(v@.take(v@.len() as int) =~= v@);
        }
        let start = byte_len_range(v.as_slice(), 0, j);
        let mut s = string_of(slice_range(v.as_slice(), 0, j));
        let rest = string_of(slice_range(v.as_slice(), k, v.len()));
        s.append(rest.as_str());
        assert(v@.subrange(k as int, v@.len() as int) =~= v@.skip(k as int));
        self.input = s;
        self.cursor_pos = start;
    }

    /// `move_cursor_left`: to the start of the character before the cursor.
    pub fn move_cursor_left(&mut self)
        ensures
            cursor_moved(*old(self), *final(self), cursor_left(old(self).input@, old(self).cursor_pos as int)),
    {
        if self.cursor_pos > 0 {
            let v = chars_of(self.input.as_str());
            let n = str_byte_len(self.input.as_str());
            if self.cursor_pos - 1 >= n {
                self.cursor_pos = n;
            } else {
                let (_, start) = char_index_at_byte(v.as_slice(), self.cursor_pos - 1);
                self.cursor_pos = start;
            }
        }
    }

    /// `move_cursor_right`: past the character at the cursor.
    pub fn move_cursor_right(&mut self)
        ensures
            cursor_moved(*old(self), *final(self), cursor_right(old(self).input@, old(self).cursor_pos as int)),
    {
        let v = chars_of(self.input.as_str());
        let vl = v.len();
        let n = str_byte_len(self.input.as_str());
        if self.cursor_pos < n {
            let (k, _) = char_index_at_byte(v.as_slice(), self.cursor_pos);
            proof {
                lemma_byte_len_take_mono(v@, k + 1, v@.len() as int);
                assert(v@.take(v@.len() as int) =~= v@);
            }
            self.cursor_pos = byte_len_range(v.as_slice(), 0, k + 1);
            assert(v@.subrange(0, k + 1) =~= v@.take(k + 1));
        }
    }

    /// `handle_key`: what a key press does on the conversation screen.
    /// Ctrl+C and Ctrl+D quit; Enter sends the
    /// input (and returns its text, for the agent to start on it); editing
    /// keys change the input only while no agent is at work; arrows, Home and
    /// End move the cursor; Up, Down, PageUp and PageDown scroll.
    pub fn handle_key(&mut self, key: KeyPress) -> (sent: Option<String>)
        requires
            cursor_ok(*old(self)),
            room_ok(*old(self)),
        ensures
            key_handled(*old(self), key, *final(self), sent),
            cursor_ok(*final(self)),
    {
        let ghost a = *self;
        if key.ctrl {
            match key.key {
                Key::Char(c) => {
                    if c == 'c' {
                        self.should_quit = true;
                        return None;
                    }
                    if c == 'd' {
                        self.should_quit = true;
                        return None;
                    }
                },
                _ => {},
            }
        }
        match key.key {
            Key::Enter => {
                let r = self.send_message();
                proof {
                    if r is Some {
                        assert(self.input@ =~= Seq::<char>::empty());
                        assert(self.input@.take(0) =~= Seq::<char>::empty());
                    }
                }
                r
            },
            Key::Backspace => {
                if !self.agent_active {
                    self.delete_char();
                    proof { lemma_deleted_cursor_ok(a, *self); }
                }
                None
            },
            Key::Char(c) => {
                if !self.agent_active {
                    if key.ctrl && c == 'w' {
                        self.delete_word();
                        proof { lemma_word_deleted_cursor_ok(a, *self); }
                    } else {
                        self.input_char(c);
                        proof { lemma_typed_cursor_ok(a, *self, c); }
                    }
                }
                None
            },
            Key::Left => {
                self.move_cursor_left();
                proof { lemma_left_cursor_ok(a.input@, a.cursor_pos as int); }
                None
            },
            Key::Right => {
                self.move_cursor_right();
                proof { lemma_right_cursor_ok(a.input@, a.cursor_pos as int); }
                None
            },
            Key::Home => {
                self.move_cursor_home();
                proof { assert(self.input@.take(0) =~= Seq::<char>::empty()); }
                None
            },
            Key::End => {
                self.move_cursor_end();
                proof { assert(self.input@.take(self.input@.len() as int) =~= self.input@); }
                None
            },
            Key::Up => {
                self.scroll_up();
                None
            },
            Key::Down => {
                self.scroll_down();
                None
            },
            Key::PageUp => {
                self.scroll_up_page(PAGE_LINES);
                None
            },
            Key::PageDown => {
                self.scroll_down_page(PAGE_LINES);
                None
            },
            _ => None,
        }
    }

    /// `move_cursor_home`: to the start of the input.
    pub fn move_cursor_home(&mut self)
        ensures
            cursor_moved(*old(self), *final(self), 0),
    {
        self.cursor_pos = 0;
    }

    /// `move_cursor_end`: to the end of the input.
    pub fn move_cursor_end(&mut self)
        ensures
            cursor_moved(*old(self), *final(self), byte_len(old(self).input@) as int),
    {
        self.cursor_pos = str_byte_len(self.input.as_str());
    }
}

proof fn lemma_first_with_id(p: Seq<(Seq<char>, Seq<char>)>, id: Seq<char>, i: int)
    requires
        0 <= i <= p.len(),
        forall|j: int| 0 <= j < i ==> (#[trigger] p[j]).0 != id,
        i == p.len() || p[i].0 == id,
    ensures
        first_with_id(p, id) == if i == p.len() { -1 } else { i },
    decreases i,
{
    if p.len() > 0 && i > 0 {
        let t = p.drop_first();
        assert forall|j: int| 0 <= j < i - 1 implies (#[trigger] t[j]).0 != id by {
            assert(t[j] == p[j + 1]);
        }
        if i < p.len() {
            assert(t[i - 1] == p[i]);
        }
        lemma_first_with_id(t, id, i - 1);
    }
}


proof fn lemma_boundary_bytes(s: Seq<char>, b: int)
    requires
        char_boundary(s, b),
    ensures
        0 <= chars_in_bytes(s, b) <= s.len(),
        byte_len(s.take(chars_in_bytes(s, b))) == b,
{
}

proof fn lemma_typed_cursor_ok(a: App, b: App, c: char)
    requires
        cursor_ok(a),
        char_typed(a, b, c),
    ensures
        cursor_ok(b),
{
    let s = a.input@;
    let pos = a.cursor_pos as int;
    lemma_boundary_bytes(s, pos);
    let k = chars_in_bytes(s, pos);
    let t = b.input@;
    assert(t.take(k + 1) =~= s.take(k).push(c));
    lemma_byte_len_push(s.take(k), c);
    lemma_byte_len_take_mono(t, k + 1, t.len() as int);
    assert(t.take(t.len() as int) =~= t);
}

proof fn lemma_deleted_cursor_ok(a: App, b: App)
    requires
        cursor_ok(a),
        char_deleted(a, b),
    ensures
        cursor_ok(b),
{
    if a.cursor_pos > 0 {
        let s = a.input@;
        lemma_char_at_byte(s, a.cursor_pos - 1);
        let k = char_at_byte(s, a.cursor_pos - 1);
        let t = b.input@;
        assert(t.take(k) =~= s.take(k));
        lemma_byte_len_take_mono(t, k, t.len() as int);
        assert(t.take(t.len() as int) =~= t);
    }
}

proof fn lemma_word_deleted_cursor_ok(a: App, b: App)
    requires
        cursor_ok(a),
        word_deleted(a, b),
    ensures
        cursor_ok(b),
{
    if a.cursor_pos > 0 {
        let s = a.input@;
        lemma_boundary_bytes(s, a.cursor_pos as int);
        let k = chars_in_bytes(s, a.cursor_pos as int);
        lemma_word_start_range(s, k);
        let j = word_start(s, k);
        let t = b.input@;
        assert(t.take(j) =~= s.take(j));
        lemma_byte_len_take_mono(t, j, t.len() as int);
        assert(t.take(t.len() as int) =~= t);
    }
}

proof fn lemma_word_start_range(s: Seq<char>, k: int)
    requires
        0 <= k <= s.len(),
    ensures
        0 <= word_start(s, k) <= k,
{
    lemma_rspan_le(s.take(k), class_pred(CharClass::Space));
    let a = k - rspan(s.take(k), class_pred(CharClass::Space));
    lemma_rspan_le(s.take(a), class_pred(CharClass::NotSpace));
}

proof fn lemma_left_cursor_ok(s: Seq<char>, cur: int)
    requires
        0 <= cur,
    ensures
        char_boundary(s, cursor_left(s, cur)),
        cursor_left(s, cur) <= byte_len(s),
{
    assert(s.take(0) =~= Seq::<char>::empty());
    assert(s.take(s.len() as int) =~= s);
    if cur > 0 && cur - 1 < byte_len(s) {
        lemma_char_at_byte(s, cur - 1);
        lemma_byte_len_take_mono(s, char_at_byte(s, cur - 1), s.len() as int);
    }
}

proof fn lemma_right_cursor_ok(s: Seq<char>, cur: int)
    requires
        0 <= cur <= byte_len(s),
        char_boundary(s, cur),
    ensures
        char_boundary(s, cursor_right(s, cur)),
        cursor_right(s, cur) <= byte_len(s),
{
    if cur < byte_len(s) {
        lemma_char_at_byte(s, cur);
        lemma_byte_len_take_mono(s, char_at_byte(s, cur) + 1, s.len() as int);
        assert(s.take(s.len() as int) =~= s);
    }
}


/// Typing a character and then pressing Backspace gives back the input
/// line and the cursor as they were.
pub proof fn backspace_undoes_typing(a: App, b: App, c: App, ch: char)
    requires
        cursor_ok(a),
        char_typed(a, b, ch),
        char_deleted(b, c),
    ensures
        c.input@ == a.input@,
        c.cursor_pos == a.cursor_pos,
        same_but_input(a, c),
{
    let s = a.input@;
    let pos = a.cursor_pos as int;
    lemma_boundary_bytes(s, pos);
    let k = chars_in_bytes(s, pos);
    let t = b.input@;
    assert(t.take(k + 1) =~= s.take(k).push(ch));
    assert(t.take(k) =~= s.take(k));
    lemma_byte_len_push(s.take(k), ch);
    assert(t.skip(k + 1) =~= s.skip(k));
    assert(t[k] == ch);
    lemma_byte_len_take_mono(t, k + 1, t.len() as int);
    assert(t.take(t.len() as int) =~= t);
    lemma_char_at_byte_unique(t, b.cursor_pos - 1, k);
    assert(s.take(k) + s.skip(k) =~= s);
}

/// Moving the cursor one character right and then one left brings it back,
/// wherever it stood before the end of the line.
pub proof fn left_undoes_right(s: Seq<char>, cur: int)
    requires
        0 <= cur < byte_len(s),
        char_boundary(s, cur),
    ensures
        cursor_left(s, cursor_right(s, cur)) == cur,
{
    lemma_boundary_bytes(s, cur);
    let k = chars_in_bytes(s, cur);
    assert(s.take(s.len() as int) =~= s);
    if k == s.len() {
        assert(false);
    }
    lemma_byte_len_take(s, k);
    lemma_char_at_byte_unique(s, cur, k);
    let r = byte_len(s.take(k + 1)) as int;
    lemma_byte_len_take_mono(s, k + 1, s.len() as int);
    lemma_char_at_byte_unique(s, r - 1, k);
}

/// Moving the cursor one character left and then one right brings it back,
/// wherever it stood after the start of the line.
pub proof fn right_undoes_left(s: Seq<char>, cur: int)
    requires
        0 < cur <= byte_len(s),
        char_boundary(s, cur),
    ensures
        cursor_right(s, cursor_left(s, cur)) == cur,
{
    lemma_boundary_bytes(s, cur);
    let k = chars_in_bytes(s, cur);
    lemma_char_at_byte(s, cur - 1);
    let j = char_at_byte(s, cur - 1);
    let l = byte_len(s.take(j)) as int;
    assert(cursor_left(s, cur) == l);
    lemma_byte_len_take_mono(s, j + 1, s.len() as int);
    assert(s.take(s.len() as int) =~= s);
    lemma_char_at_byte_unique(s, l, j);
    if k <= j {
        lemma_byte_len_take_mono(s, k, j);
    } else {
        lemma_byte_len_take_mono(s, j + 1, k);
    }
}

/// Scrolling one line up and then one down comes back to the same place,
/// unless the offset already stood at its limit.
pub proof fn scroll_down_undoes_up(a: App, b: App, c: App)
    requires
        a.scroll_offset < u16::MAX,
        scrolled(a, b, a.scroll_offset + 1),
        scrolled(b, c, if b.scroll_offset > 0 { b.scroll_offset - 1 } else { 0 }),
    ensures
        c == a,
{
}

} // verus!
