//! What the screen shows: the lines of the conversation, the input line and
//! the status bar, as pieces of text with the tone they are drawn in.

use vstd::prelude::*;
use crate::app::{App, Message, MessageRole, ToolCall};
use crate::text::{
    byte_len, byte_prefix, byte_suffix, char_boundary, chars_for_bytes, chars_of, is_char_boundary_exec,
    prefix_bytes, slice_range, str_byte_len, string_of,
};

verus! {

/// How a piece of text is drawn.
#[derive(Clone, Copy, PartialEq, Eq, Structural)]
pub enum Tone {
    /// A tool's name and the brackets round its arguments.
    ToolName,
    /// A tool's arguments.
    ToolArgs,
    /// The result of a tool that failed.
    ToolError,
    /// The result of a tool.
    ToolOutput,
    /// The label of a message from the user.
    UserLabel,
    /// The label of a message from the agent.
    AgentLabel,
    /// The label of a note from the application.
    SystemLabel,
    /// Ordinary text.
    Plain,
    /// The mark after an answer that is still streaming in.
    StreamMark,
    /// The prompt in front of the input.
    Prompt,
    /// The character under the cursor.
    CursorCell,
    /// The mode label while an agent is at work.
    AgentMode,
    /// The mode label otherwise.
    InsertMode,
    /// The name of a key in the status bar.
    KeyName,
}

/// A piece of text and its tone.
pub struct Piece {
    pub text: String,
    pub tone: Tone,
}

/// A piece as `(text, tone)`.
pub open spec fn piece_view(p: Piece) -> (Seq<char>, Tone) {
    (p.text@, p.tone)
}

/// A line as its pieces.
pub open spec fn line_view(l: Vec<Piece>) -> Seq<(Seq<char>, Tone)> {
    l@.map_values(|p: Piece| piece_view(p))
}

/// Lines as their pieces.
pub open spec fn lines_view(ls: Seq<Vec<Piece>>) -> Seq<Seq<(Seq<char>, Tone)>> {
    ls.map_values(|l: Vec<Piece>| line_view(l))
}

/// A tool result as the screen shows it: its first 500 bytes and a mark
/// when it is longer.
pub open spec fn shown_result(c: Seq<char>) -> Seq<char> {
    if byte_len(c) > 500 { byte_prefix(c, 500) + "... (truncated)"@ } else { c }
}

/// The label of a message that is not from a tool, and its tone.
pub open spec fn role_label(r: MessageRole) -> (Seq<char>, Tone) {
    match r {
        MessageRole::User => ("You"@, Tone::UserLabel),
        MessageRole::Agent => ("Agent"@, Tone::AgentLabel),
        _ => ("System"@, Tone::SystemLabel),
    }
}

/// The lines that a message takes: a tool call shows its first call as
/// `name(arguments)` (nothing when it holds none); a tool result shows,
/// indented, what `shown_result` keeps of it, in red when the tool failed;
/// other messages show their label and text.
pub open spec fn message_lines(m: Message) -> Seq<Seq<(Seq<char>, Tone)>> {
    if m.role == MessageRole::Tool {
        match m.tool_calls {
            Some(tcs) => if tcs@.len() > 0 {
                let tc = tcs@[0];
                seq![seq![(tc.name@ + "("@, Tone::ToolName), (tc.arguments@, Tone::ToolArgs), (")"@, Tone::ToolName)]]
            } else {
                seq![]
            },
            None => seq![seq![(
                "  "@ + shown_result(m.content@),
                if m.tool_result_error { Tone::ToolError } else { Tone::ToolOutput },
            )]],
        }
    } else {
        let (label, tone) = role_label(m.role);
        seq![seq![(label + ": "@, tone), (m.content@, Tone::Plain)]]
    }
}

/// The lines of the messages, one message after the other.
pub open spec fn messages_lines(ms: Seq<Message>) -> Seq<Seq<(Seq<char>, Tone)>>
    decreases ms.len(),
{
    if ms.len() == 0 {
        seq![]
    } else {
        messages_lines(ms.drop_last()) + message_lines(ms.last())
    }
}

/// The lines of the conversation panel: the lines of all messages, and the
/// streaming mark when an answer of the agent is coming in.
pub open spec fn conversation(ms: Seq<Message>, streaming: bool) -> Seq<Seq<(Seq<char>, Tone)>> {
    let mark: Seq<Seq<(Seq<char>, Tone)>> = if streaming && ms.len() > 0 && ms.last().role == MessageRole::Agent {
        seq![seq![("▌"@, Tone::StreamMark)]]
    } else {
        seq![]
    };
    messages_lines(ms) + mark
}

/// Every tool result can be cut where the screen cuts it.
pub open spec fn results_displayable(ms: Seq<Message>) -> bool {
    forall|i: int| 0 <= i < ms.len() && (#[trigger] ms[i]).role == MessageRole::Tool && ms[i].tool_calls is None
        && byte_len(ms[i].content@) > 500 ==> char_boundary(ms[i].content@, 500)
}

fn piece(text: String, tone: Tone) -> (p: Piece)
    ensures
        piece_view(p) == (text@, tone),
{
    Piece { text, tone }
}

fn message_view_lines(m: &Message) -> (r: Vec<Vec<Piece>>)
    requires
        m.role == MessageRole::Tool && m.tool_calls is None && byte_len(m.content@) > 500 ==> char_boundary(m.content@, 500),
    ensures
        lines_view(r@) == message_lines(*m),
{
    let mut r: Vec<Vec<Piece>> = Vec::new();
    if m.role == MessageRole::Tool {
        match &m.tool_calls {
            Some(tcs) => {
                if tcs.len() > 0 {
                    let tc: &ToolCall = &tcs[0];
                    let mut head = tc.name.clone();
                    head.append("(");
                    let mut l: Vec<Piece> = Vec::new();
                    l.push(piece(head, Tone::ToolName));
                    l.push(piece(tc.arguments.clone(), Tone::ToolArgs));
                    l.push(piece(")".to_owned(), Tone::ToolName));
                    r.push(l);
                    assert(line_view(r@[0]) =~= seq![(tc.name@ + "("@, Tone::ToolName), (tc.arguments@, Tone::ToolArgs), (")"@, Tone::ToolName)]);
                    assert(lines_view(r@) =~= message_lines(*m));
                } else {
                    assert(lines_view(r@) =~= message_lines(*m));
                }
            },
            None => {
                let mut t = "  ".to_owned();
                if str_byte_len(m.content.as_str()) > 500 {
                    let p = prefix_bytes(m.content.as_str(), 500);
                    t.append(p.as_str());
                    t.append("... (truncated)");
                    assert(t@ =~= "  "@ + shown_result(m.content@));
                } else {
                    t.append(m.content.as_str());
                    assert(t@ =~= "  "@ + shown_result(m.content@));
                }
                let tone = if m.tool_result_error { Tone::ToolError } else { Tone::ToolOutput };
                let mut l: Vec<Piece> = Vec::new();
                l.push(piece(t, tone));
                r.push(l);
                assert(line_view(r@[0]) =~= seq![(t@, tone)]);
                assert(lines_view(r@) =~= message_lines(*m));
            },
        }
    } else {
        let (label, tone) = match m.role {
            MessageRole::User => ("You: ", Tone::UserLabel),
            MessageRole::Agent => ("Agent: ", Tone::AgentLabel),
            _ => ("System: ", Tone::SystemLabel),
        };
        let mut l: Vec<Piece> = Vec::new();
        l.push(piece(label.to_owned(), tone));
        l.push(piece(m.content.clone(), Tone::Plain));
        r.push(l);
        proof {
            reveal_strlit("You: ");
            reveal_strlit("Agent: ");
            reveal_strlit("System: ");
            reveal_strlit("You");
            reveal_strlit("Agent");
            reveal_strlit("System");
            reveal_strlit(": ");
            assert("You: "@ =~= "You"@ + ": "@);
            assert("Agent: "@ =~= "Agent"@ + ": "@);
            assert("System: "@ =~= "System"@ + ": "@);
            assert(label@ == role_label(m.role).0 + ": "@);
        }
        assert(line_view(r@[0]) =~= seq![(role_label(m.role).0 + ": "@, role_label(m.role).1), (m.content@, Tone::Plain)]);
        assert(lines_view(r@) =~= message_lines(*m));
    }
    r
}

/// `draw_conversation`: the lines of the conversation panel.
pub fn conversation_lines(app: &App) -> (r: Vec<Vec<Piece>>)
    requires
        results_displayable(app.messages@),
    ensures
        lines_view(r@) == conversation(app.messages@, app.streaming),
{
    let ms = &app.messages;
    let mut r: Vec<Vec<Piece>> = Vec::new();
    let mut i: usize = 0;
    assert(ms@.take(0) =~= Seq::<Message>::empty());
    while i < ms.len()
        invariant
            i <= ms@.len(),
            results_displayable(ms@),
            lines_view(r@) == messages_lines(ms@.take(i as int)),
        decreases ms@.len() - i,
    {
        let mut ls = message_view_lines(&ms[i]);
        let ghost before = r@;
        let ghost lsv = ls@;
        r.append(&mut ls);
        assert(lines_view(r@) =~= lines_view(before) + lines_view(lsv));
        proof {
            assert(ms@.take(i + 1).drop_last() =~= ms@.take(i as int));
            assert(ms@.take(i + 1).last() == ms@[i as int]);
        }
        i += 1;
    }
    assert(ms@.take(ms@.len() as int) =~= ms@);
    let n = ms.len();
    if app.streaming && n > 0 && ms[n - 1].role == MessageRole::Agent {
        let mut l: Vec<Piece> = Vec::new();
        l.push(piece("▌".to_owned(), Tone::StreamMark));
        let ghost rb = r@;
        r.push(l);
        assert(lines_view(r@) =~= lines_view(rb).push(line_view(l)));
        assert(line_view(l) =~= seq![("▌"@, Tone::StreamMark)]);
    } else {
        assert(lines_view(r@) =~= lines_view(r@) + Seq::<Seq<(Seq<char>, Tone)>>::empty());
    }
    r
}

/// The title of the input panel.
pub open spec fn input_title_text(agent_active: bool) -> Seq<char> {
    if agent_active { " Input (agent...) "@ } else { " Input "@ }
}

/// `draw_input`'s title.
pub fn input_title(app: &App) -> (r: &'static str)
    ensures
        r@ == input_title_text(app.agent_active),
{
    if app.agent_active { " Input (agent...) " } else { " Input " }
}

/// The input line: the prompt, then the input with the character under the
/// cursor highlighted (a highlighted blank when the cursor stands at the
/// end or the input is empty).
pub open spec fn input_pieces(input: Seq<char>, cursor: int) -> Seq<(Seq<char>, Tone)> {
    let n = byte_len(input);
    if input.len() == 0 {
        seq![("> "@, Tone::Prompt), (" "@, Tone::CursorCell)]
    } else {
        let before = byte_prefix(input, if cursor < n { cursor } else { n as int });
        if cursor < n {
            let rest = byte_suffix(input, cursor);
            seq![("> "@, Tone::Prompt), (before, Tone::Plain), (seq![rest[0]], Tone::CursorCell), (rest.drop_first(), Tone::Plain)]
        } else {
            seq![("> "@, Tone::Prompt), (before, Tone::Plain), (" "@, Tone::CursorCell), (Seq::<char>::empty(), Tone::Plain)]
        }
    }
}

/// `draw_input`'s line for the input and its cursor.
pub fn input_line(app: &App) -> (r: Vec<Piece>)
    requires
        char_boundary(app.input@, if app.cursor_pos < byte_len(app.input@) { app.cursor_pos as int } else { byte_len(app.input@) as int }),
    ensures
        line_view(r) == input_pieces(app.input@, app.cursor_pos as int),
{
    let mut r: Vec<Piece> = Vec::new();
    r.push(piece("> ".to_owned(), Tone::Prompt));
    let input = app.input.as_str();
    if input.is_empty() {
        r.push(piece(" ".to_owned(), Tone::CursorCell));
        assert(line_view(r) =~= seq![("> "@, Tone::Prompt), (" "@, Tone::CursorCell)]);
        return r;
    }
    let n = str_byte_len(input);
    let cut = if app.cursor_pos < n { app.cursor_pos } else { n };
    let v = chars_of(input);
    let k = match chars_for_bytes(v.as_slice(), cut) {
        Some(k) => k,
        None => {
            proof { assert(false); }
            0
        },
    };
    let before = string_of(slice_range(v.as_slice(), 0, k));
    assert(v@.subrange(0, k as int) =~= v@.take(k as int));
    r.push(piece(before, Tone::Plain));
    if app.cursor_pos < n {
        let vl = v.len();
        if k >= vl {
            proof {
                assert(v@.take(k as int) =~= v@);
                assert(false);
            }
            return r;
        }
        let mut cur = String::new();
        cur.push(v[k]);
        let after = string_of(slice_range(v.as_slice(), k + 1, vl));
        r.push(piece(cur, Tone::CursorCell));
        r.push(piece(after, Tone::Plain));
        proof {
            let rest = v@.skip(k as int);
            assert(rest == byte_suffix(input@, app.cursor_pos as int));
            assert(cur@ =~= seq![rest[0]]);
            assert(after@ =~= rest.drop_first());
        }
    } else {
        r.push(piece(" ".to_owned(), Tone::CursorCell));
        r.push(piece(String::new(), Tone::Plain));
    }
    assert(line_view(r) =~= input_pieces(app.input@, app.cursor_pos as int));
    r
}

/// The status bar: the mode, then the keys and what they do.
pub open spec fn status_pieces(agent_active: bool) -> Seq<(Seq<char>, Tone)> {
    let mode = if agent_active { (" AGENT "@, Tone::AgentMode) } else { (" INSERT "@, Tone::InsertMode) };
    seq![
        mode,
        (" │ "@, Tone::Plain),
        ("Enter"@, Tone::KeyName),
        (" send │ "@, Tone::Plain),
        ("Ctrl+C"@, Tone::KeyName),
        (" quit │ "@, Tone::Plain),
        ("Ctrl+W"@, Tone::KeyName),
        (" delete word │ "@, Tone::Plain),
        ("↑↓"@, Tone::KeyName),
        (" scroll"@, Tone::Plain),
    ]
}

/// `draw_status_bar`'s line.
pub fn status_line(app: &App) -> (r: Vec<Piece>)
    ensures
        line_view(r) == status_pieces(app.agent_active),
{
    let mut r: Vec<Piece> = Vec::new();
    if app.agent_active {
        r.push(piece(" AGENT ".to_owned(), Tone::AgentMode));
    } else {
        let mut m = " ".to_owned();
        m.append(app.input_mode());
        m.append(" ");
        proof {
            reveal_strlit(" ");
            reveal_strlit("INSERT");
            reveal_strlit(" INSERT ");
            assert(m@ =~= " INSERT "@);
        }
        r.push(piece(m, Tone::InsertMode));
    }
    r.push(piece(" │ ".to_owned(), Tone::Plain));
    r.push(piece("Enter".to_owned(), Tone::KeyName));
    r.push(piece(" send │ ".to_owned(), Tone::Plain));
    r.push(piece("Ctrl+C".to_owned(), Tone::KeyName));
    r.push(piece(" quit │ ".to_owned(), Tone::Plain));
    r.push(piece("Ctrl+W".to_owned(), Tone::KeyName));
    r.push(piece(" delete word │ ".to_owned(), Tone::Plain));
    r.push(piece("↑↓".to_owned(), Tone::KeyName));
    r.push(piece(" scroll".to_owned(), Tone::Plain));
    assert(line_view(r) =~= status_pieces(app.agent_active));
    r
}

/// Whether every tool result of the conversation can be cut where the
/// screen cuts it.
pub fn results_fit(app: &App) -> (b: bool)
    ensures
        b == results_displayable(app.messages@),
{
    let ms = &app.messages;
    let mut i: usize = 0;
    while i < ms.len()
        invariant
            i <= ms@.len(),
            ms@ == app.messages@,
            forall|j: int| 0 <= j < i && (#[trigger] ms@[j]).role == MessageRole::Tool && ms@[j].tool_calls is None
                && byte_len(ms@[j].content@) > 500 ==> char_boundary(ms@[j].content@, 500),
        decreases ms@.len() - i,
    {
        let m = &ms[i];
        if m.role == MessageRole::Tool && m.tool_calls.is_none() && str_byte_len(m.content.as_str()) > 500
            && !is_char_boundary_exec(m.content.as_str(), 500) {
            proof {
                let k = i as int;
                assert(app.messages@[k] == *m);
                assert(!(app.messages@[k].role == MessageRole::Tool && app.messages@[k].tool_calls is None
                    && byte_len(app.messages@[k].content@) > 500 ==> char_boundary(app.messages@[k].content@, 500)));
            }
            return false;
        }
        i += 1;
    }
    true
}

} // verus!
