use zero_code::api::{
    build_messages, chat_completions_url, classify_sse_line, collect_completed, response_text, ChatResponse,
    ChatResponseChoice, ChatResponseMessage, DeltaContent, FunctionDelta, SseBuffer, SseLine, StreamChoice,
    StreamChunk, StreamState, ToolCallDelta,
};
use zero_code::app::{AgentEvent, Message, MessageRole, ToolCall};
use zero_code::config::Config;

#[test]
fn test_build_messages_includes_tool_messages() {
    let config = Config::default();
    let conversation = vec![
        Message {
            role: MessageRole::User,
            content: "read file".into(),
            tool_calls: None,
            tool_call_id: None,
            tool_result_error: false,
        },
        Message {
            role: MessageRole::Tool,
            content: "file contents here".into(),
            tool_calls: None,
            tool_call_id: Some("call_1".into()),
            tool_result_error: false,
        },
    ];

    let messages = build_messages(&config, &conversation);
    assert_eq!(messages.len(), 3);
    assert_eq!(messages[0].role, "system");
    assert_eq!(messages[1].role, "user");
    assert_eq!(messages[2].role, "tool");
    assert_eq!(messages[2].tool_call_id.as_deref(), Some("call_1"));
}

#[test]
fn test_build_messages_handles_agent_tool_calls() {
    let config = Config::default();
    let conversation = vec![Message {
        role: MessageRole::Agent,
        content: "Let me check".into(),
        tool_calls: Some(vec![ToolCall {
            id: "call_1".into(),
            name: "ls".into(),
            arguments: r#"{"path":"src"}"#.into(),
        }]),
        tool_call_id: None,
        tool_result_error: false,
    }];

    let messages = build_messages(&config, &conversation);
    assert_eq!(messages.len(), 2);
    assert_eq!(messages[1].role, "assistant");
    let tcs = messages[1].tool_calls.as_ref().unwrap();
    assert_eq!(tcs.len(), 1);
    assert_eq!(tcs[0].id, "call_1");
    assert_eq!(tcs[0].function.name, "ls");
}

#[test]
fn agent_message_without_text_sends_no_content() {
    let config = Config::default();
    let conversation = vec![Message {
        role: MessageRole::Agent,
        content: String::new(),
        tool_calls: Some(vec![]),
        tool_call_id: None,
        tool_result_error: false,
    }];
    let messages = build_messages(&config, &conversation);
    assert!(messages[1].content.is_none());
    assert_eq!(messages[0].content.as_deref(), Some("You are a helpful coding assistant. Answer concisely and accurately."));
}

#[test]
fn completions_url_drops_trailing_slashes() {
    assert_eq!(chat_completions_url("https://api.deepseek.com/"), "https://api.deepseek.com/v1/chat/completions");
    assert_eq!(chat_completions_url("http://x"), "http://x/v1/chat/completions");
}

#[test]
fn plain_reply_text() {
    let ok = ChatResponse {
        choices: vec![ChatResponseChoice { message: ChatResponseMessage { content: Some("# Memory".into()) } }],
    };
    assert_eq!(response_text(ok), Ok("# Memory".to_string()));
    let empty = ChatResponse { choices: vec![] };
    assert_eq!(response_text(empty), Err("Empty response from API".to_string()));
}

#[test]
fn sse_buffer_cuts_lines() {
    let mut b = SseBuffer::new();
    b.push_text("data: {\"a\"");
    assert_eq!(b.next_line(), None);
    b.push_text(":1}\r\n\ndata: [DONE]\n");
    assert_eq!(b.next_line(), Some("data: {\"a\":1}".to_string()));
    assert_eq!(b.next_line(), Some(String::new()));
    let done = b.next_line().unwrap();
    assert!(matches!(classify_sse_line(&done), SseLine::Done));
    assert_eq!(b.next_line(), None);
    assert!(matches!(classify_sse_line(""), SseLine::Empty));
    assert!(matches!(classify_sse_line(": keep-alive"), SseLine::Other));
    match classify_sse_line("data: {}") {
        SseLine::Data(d) => assert_eq!(d, "{}"),
        _ => panic!("expected data"),
    }
}

fn chunk(content: Option<&str>, reasoning: Option<&str>, calls: Option<Vec<ToolCallDelta>>) -> StreamChunk {
    StreamChunk {
        choices: vec![StreamChoice {
            delta: DeltaContent {
                content: content.map(String::from),
                reasoning_content: reasoning.map(String::from),
                tool_calls: calls,
            },
        }],
    }
}

fn delta(index: usize, id: Option<&str>, name: Option<&str>, args: Option<&str>) -> ToolCallDelta {
    ToolCallDelta {
        index,
        id: id.map(String::from),
        function: Some(FunctionDelta { name: name.map(String::from), arguments: args.map(String::from) }),
    }
}

#[test]
fn stream_tokens_and_reasoning() {
    let mut s = StreamState::new();
    let ev = s.apply_chunk(&chunk(None, Some("hello"), None));
    assert_eq!(ev.len(), 1);
    assert!(matches!(&ev[0], AgentEvent::Token(t) if t == "hello"));
    let ev = s.apply_chunk(&chunk(Some("world"), Some("ignored"), None));
    assert!(matches!(&ev[0], AgentEvent::Token(t) if t == "world"));
    let ev = s.apply_chunk(&chunk(None, None, None));
    assert!(ev.is_empty());
    let ev = s.apply_chunk(&StreamChunk { choices: vec![] });
    assert!(ev.is_empty());
}

#[test]
fn stream_assembles_tool_calls() {
    let mut s = StreamState::new();
    let ev = s.apply_chunk(&chunk(None, None, Some(vec![delta(0, Some("call_123"), Some("read_file"), Some("{\"path\":"))])));
    assert_eq!(ev.len(), 2);
    assert!(matches!(&ev[0], AgentEvent::ToolCallArg { id, args } if id == "call_123" && args == "{\"path\":"));
    assert!(matches!(&ev[1], AgentEvent::ToolCallStart { id, name } if id == "call_123" && name == "read_file"));
    let ev = s.apply_chunk(&chunk(None, None, Some(vec![delta(0, None, None, Some("\"src/main.rs\"}"))])));
    assert_eq!(ev.len(), 1);
    let ev = s.apply_chunk(&chunk(None, None, Some(vec![delta(2, None, Some("ls"), None)])));
    assert!(ev.is_empty());
    let done = collect_completed(&s.acc_tool_calls);
    assert_eq!(done.len(), 1);
    assert_eq!(done[0].id, "call_123");
    assert_eq!(done[0].name, "read_file");
    assert_eq!(done[0].arguments, "{\"path\":\"src/main.rs\"}");
}
