use zero_code::app::{AgentEvent, App, Key, KeyPress, MessageRole};
use zero_code::config::Config;

fn new_app() -> App {
    App::new(Config::default())
}

fn key(k: Key) -> KeyPress {
    KeyPress { key: k, ctrl: false }
}

fn ctrl(c: char) -> KeyPress {
    KeyPress { key: Key::Char(c), ctrl: true }
}

#[test]
fn test_append_first_token_creates_agent_message() {
    let mut app = new_app();
    assert_eq!(app.messages.len(), 1);

    app.append_agent_token("Hello");
    assert_eq!(app.messages.len(), 2);
    assert_eq!(app.messages[1].role, MessageRole::Agent);
    assert_eq!(app.messages[1].content, "Hello");
}

#[test]
fn test_append_token_appends_to_existing_agent() {
    let mut app = new_app();
    app.append_agent_token("Hello");
    app.append_agent_token(" world");

    assert_eq!(app.messages.len(), 2);
    assert_eq!(app.messages[1].content, "Hello world");
}

#[test]
fn test_append_token_after_system_message_creates_new_agent() {
    let mut app = new_app();
    app.append_agent_token("Hi");
    app.add_system_message("Error: something");
    app.append_agent_token("Hello again");

    assert_eq!(app.messages.len(), 4);
    assert_eq!(app.messages[1].role, MessageRole::Agent);
    assert_eq!(app.messages[1].content, "Hi");
    assert_eq!(app.messages[2].role, MessageRole::System);
    assert_eq!(app.messages[3].role, MessageRole::Agent);
    assert_eq!(app.messages[3].content, "Hello again");
}

#[test]
fn test_agent_event_token() {
    let mut app = new_app();
    app.handle_agent_event(AgentEvent::Token("Hi".into()));
    app.handle_agent_event(AgentEvent::Token(" there".into()));

    assert_eq!(app.messages.len(), 2);
    assert_eq!(app.messages[1].role, MessageRole::Agent);
    assert_eq!(app.messages[1].content, "Hi there");
    assert!(app.streaming);
}

#[test]
fn test_agent_event_done() {
    let mut app = new_app();
    app.agent_active = true;
    app.streaming = true;
    app.handle_agent_event(AgentEvent::Done);

    assert!(!app.agent_active);
    assert!(!app.streaming);
}

#[test]
fn test_agent_event_error() {
    let mut app = new_app();
    app.agent_active = true;
    app.streaming = true;
    app.handle_agent_event(AgentEvent::Error("boom".into()));

    assert!(!app.agent_active);
    assert!(!app.streaming);
    let last = app.messages.last().unwrap();
    assert_eq!(last.role, MessageRole::System);
    assert!(last.content.contains("boom"));
}

#[test]
fn test_agent_event_tool_call_flow() {
    let mut app = new_app();

    app.handle_agent_event(AgentEvent::Token("Let me check".into()));
    app.handle_agent_event(AgentEvent::ToolCallStart { id: "call_1".into(), name: "ls".into() });
    app.handle_agent_event(AgentEvent::ToolCallArg { id: "call_1".into(), args: r#"{"path":"#.into() });
    app.handle_agent_event(AgentEvent::ToolCallArg { id: "call_1".into(), args: r#""src"}"#.into() });
    app.handle_agent_event(AgentEvent::ToolCallEnd {
        id: "call_1".into(),
        name: "ls".into(),
        arguments: r#"{"path":"src"}"#.into(),
        result: "main.rs\napp.rs".into(),
        is_error: false,
    });
    app.handle_agent_event(AgentEvent::Token("Found 2 files".into()));
    app.handle_agent_event(AgentEvent::Done);

    assert_eq!(app.messages.len(), 5);
    assert_eq!(app.messages[0].role, MessageRole::System);
    assert_eq!(app.messages[1].role, MessageRole::Agent);
    assert_eq!(app.messages[1].content, "Let me check");
    assert_eq!(app.messages[2].role, MessageRole::Tool);
    assert!(app.messages[2].tool_calls.is_some());
    assert_eq!(app.messages[3].role, MessageRole::Tool);
    assert_eq!(app.messages[3].tool_call_id, Some("call_1".into()));
    assert_eq!(app.messages[3].content, "main.rs\napp.rs");
    assert_eq!(app.messages[4].role, MessageRole::Agent);
    assert_eq!(app.messages[4].content, "Found 2 files");
    assert!(!app.agent_active);
    assert!(!app.streaming);
}

#[test]
fn test_send_message_blocked_when_agent_active() {
    let mut app = new_app();
    app.agent_active = true;
    app.input = "test".into();

    assert!(app.send_message().is_none());
    assert_eq!(app.messages.len(), 1);
}

#[test]
fn test_send_message_blocked_when_streaming() {
    let mut app = new_app();
    app.streaming = true;
    app.input = "test".into();

    assert!(app.send_message().is_none());
}

#[test]
fn test_input_mode_agent() {
    let mut app = new_app();
    assert_eq!(app.input_mode(), "INSERT");
    app.agent_active = true;
    assert_eq!(app.input_mode(), "AGENT");
}

#[test]
fn test_agent_loop_simple_text_response() {
    let events = vec![AgentEvent::Done];
    let mut app = new_app();
    app.agent_active = true;
    app.streaming = true;
    for event in events {
        app.handle_agent_event(event);
    }
    assert!(!app.agent_active);
    assert!(!app.streaming);
}

#[test]
fn test_full_streaming_pipeline() {
    let mut app = new_app();

    app.input_char('H');
    app.input_char('i');
    let user_msg = app.send_message();
    assert!(user_msg.is_some(), "send_message should succeed with non-empty input");
    assert!(app.agent_active, "agent should be active after send");
    assert!(app.streaming, "app should be streaming after send");

    let events = vec![
        AgentEvent::Token("Hello".to_string()),
        AgentEvent::Token(" world".to_string()),
        AgentEvent::Token("!".to_string()),
        AgentEvent::Done,
    ];
    for event in events {
        app.handle_agent_event(event);
    }

    assert!(!app.agent_active, "agent should be done");
    assert!(!app.streaming, "streaming should be finished");
    let agent_msg = app.messages.last().unwrap();
    assert_eq!(agent_msg.role, MessageRole::Agent);
    assert_eq!(agent_msg.content, "Hello world!");
}

#[test]
fn send_message_trims_and_clears_input() {
    let mut app = new_app();
    app.input = "  hello  ".into();
    app.cursor_pos = 4;
    assert_eq!(app.send_message(), Some("hello".to_string()));
    assert_eq!(app.input, "");
    assert_eq!(app.cursor_pos, 0);
    assert_eq!(app.messages.last().unwrap().content, "hello");
    assert_eq!(app.messages.last().unwrap().role, MessageRole::User);
}

#[test]
fn send_message_ignores_blank_input() {
    let mut app = new_app();
    app.input = "   ".into();
    assert!(app.send_message().is_none());
    assert_eq!(app.messages.len(), 1);
}

#[test]
fn editing_with_multibyte_characters() {
    let mut app = new_app();
    app.input_char('a');
    app.input_char('é');
    app.input_char('€');
    assert_eq!(app.input, "aé€");
    assert_eq!(app.cursor_pos, 6);
    app.move_cursor_left();
    assert_eq!(app.cursor_pos, 3);
    app.move_cursor_left();
    assert_eq!(app.cursor_pos, 1);
    app.input_char('b');
    assert_eq!(app.input, "abé€");
    assert_eq!(app.cursor_pos, 2);
    app.move_cursor_right();
    assert_eq!(app.cursor_pos, 4);
    app.delete_char();
    assert_eq!(app.input, "ab€");
    assert_eq!(app.cursor_pos, 2);
    app.move_cursor_end();
    assert_eq!(app.cursor_pos, 5);
    app.move_cursor_home();
    assert_eq!(app.cursor_pos, 0);
    app.delete_char();
    assert_eq!(app.input, "ab€");
}

#[test]
fn backspace_undoes_typing_in_the_middle() {
    let mut app = new_app();
    app.input = "hello".into();
    app.cursor_pos = 2;
    app.input_char('Z');
    assert_eq!(app.input, "heZllo");
    app.delete_char();
    assert_eq!(app.input, "hello");
    assert_eq!(app.cursor_pos, 2);
}

#[test]
fn delete_word_removes_spaces_and_word() {
    let mut app = new_app();
    app.input = "git commit   -m".into();
    app.cursor_pos = 13;
    app.delete_word();
    assert_eq!(app.input, "git -m");
    assert_eq!(app.cursor_pos, 4);
    app.delete_word();
    assert_eq!(app.input, "-m");
    assert_eq!(app.cursor_pos, 0);
}

#[test]
fn cursor_beyond_input_types_at_end() {
    let mut app = new_app();
    app.input = "ab".into();
    app.cursor_pos = 10;
    app.input_char('c');
    assert_eq!(app.input, "abc");
    assert_eq!(app.cursor_pos, 3);
}

#[test]
fn scrolling_saturates() {
    let mut app = new_app();
    app.scroll_down();
    assert_eq!(app.scroll_offset, 0);
    app.scroll_up();
    app.scroll_up();
    assert_eq!(app.scroll_offset, 2);
    app.scroll_down();
    assert_eq!(app.scroll_offset, 1);
    app.scroll_down_page(5);
    assert_eq!(app.scroll_offset, 0);
    app.scroll_offset = u16::MAX - 2;
    app.scroll_up_page(5);
    assert_eq!(app.scroll_offset, u16::MAX);
    app.scroll_up();
    assert_eq!(app.scroll_offset, u16::MAX);
}

#[test]
fn tool_call_arguments_for_unknown_id_are_ignored() {
    let mut app = new_app();
    app.handle_agent_event(AgentEvent::ToolCallStart { id: "a".into(), name: "ls".into() });
    app.handle_agent_event(AgentEvent::ToolCallArg { id: "b".into(), args: "x".into() });
    app.handle_agent_event(AgentEvent::ToolCallArg { id: "a".into(), args: "y".into() });
    assert_eq!(app.pending_tool_calls.len(), 1);
    assert_eq!(app.pending_tool_calls[0].arguments, "y");
    app.handle_agent_event(AgentEvent::ToolCallEnd {
        id: "a".into(),
        name: "ls".into(),
        arguments: "y".into(),
        result: "r".into(),
        is_error: true,
    });
    assert!(app.pending_tool_calls.is_empty());
    assert_eq!(app.messages[1].content, "ls(y)");
    assert!(app.messages[2].tool_result_error);
}

#[test]
fn keys_quit_and_edit() {
    let mut app = new_app();
    assert_eq!(app.handle_key(key(Key::Char('h'))), None);
    app.handle_key(key(Key::Char('i')));
    assert_eq!(app.input, "hi");
    app.handle_key(key(Key::Backspace));
    assert_eq!(app.input, "h");
    app.handle_key(key(Key::Left));
    assert_eq!(app.cursor_pos, 0);
    app.handle_key(key(Key::End));
    assert_eq!(app.cursor_pos, 1);
    app.handle_key(key(Key::PageUp));
    assert_eq!(app.scroll_offset, 5);
    app.handle_key(key(Key::Down));
    assert_eq!(app.scroll_offset, 4);
    let sent = app.handle_key(key(Key::Enter));
    assert_eq!(sent, Some("h".to_string()));
    assert!(app.agent_active);
    app.handle_key(key(Key::Char('x')));
    assert_eq!(app.input, "", "typing is ignored while the agent works");
}

#[test]
fn ctrl_d_quits_with_text_in_the_input() {
    let mut app = new_app();
    app.input = "draft".into();
    app.cursor_pos = 5;
    assert_eq!(app.handle_key(ctrl('d')), None);
    assert!(app.should_quit);
    assert_eq!(app.input, "draft");
}

#[test]
fn ctrl_c_quits_and_ctrl_w_deletes_word() {
    let mut app = new_app();
    app.input = "one two".into();
    app.cursor_pos = 7;
    app.handle_key(ctrl('w'));
    assert_eq!(app.input, "one ");
    app.handle_key(key(Key::Tab));
    assert_eq!(app.input, "one ");
    app.handle_key(ctrl('c'));
    assert!(app.should_quit);
}

#[test]
fn right_then_left_returns_to_the_same_place() {
    let mut app = new_app();
    app.input = "añb€c".into();
    for start in [0usize, 1, 3, 4] {
        app.cursor_pos = start;
        app.move_cursor_right();
        app.move_cursor_left();
        assert_eq!(app.cursor_pos, start);
    }
}

#[test]
fn down_undoes_up() {
    let mut app = new_app();
    app.scroll_offset = 7;
    app.scroll_up();
    app.scroll_down();
    assert_eq!(app.scroll_offset, 7);
}

#[test]
fn test_agent_loop_with_tool_calls() {
    let mut app = new_app();
    // This App keeps one history; the mode's prompt is its second message.
    app.add_system_message("You are in build mode.");
    app.input_char('x');
    app.send_message();

    let events = vec![
        AgentEvent::Token("Let me".into()),
        AgentEvent::Token(" check".into()),
        AgentEvent::ToolCallStart { id: "call_1".into(), name: "ls".into() },
        AgentEvent::ToolCallArg { id: "call_1".into(), args: r#"{"path":"src"}"#.into() },
        AgentEvent::ToolCallEnd {
            id: "call_1".into(),
            name: "ls".into(),
            arguments: r#"{"path":"src"}"#.into(),
            result: "main.rs\napp.rs".into(),
            is_error: false,
        },
        AgentEvent::Token("Found 2".into()),
        AgentEvent::Token(" files".into()),
        AgentEvent::Done,
    ];
    for event in events {
        app.handle_agent_event(event);
    }

    assert!(!app.agent_active);
    let msgs = &app.messages;
    // welcome + prompt + user + agent("Let me check") + tool_call + tool_result + agent("Found 2 files")
    assert_eq!(msgs.len(), 7);
    assert_eq!(msgs[3].role, MessageRole::Agent);
    assert!(msgs[3].content.contains("Let me check"));
    assert_eq!(msgs[4].role, MessageRole::Tool);
    assert!(msgs[4].tool_calls.is_some());
    assert_eq!(msgs[5].role, MessageRole::Tool);
    assert_eq!(msgs[5].content, "main.rs\napp.rs");
    assert_eq!(msgs[6].role, MessageRole::Agent);
    assert_eq!(msgs[6].content, "Found 2 files");
}

#[test]
fn left_then_right_returns_to_the_same_place() {
    let mut app = new_app();
    app.input = "añb€c".into();
    for start in [1usize, 3, 4, 7, 8] {
        app.cursor_pos = start;
        app.move_cursor_left();
        app.move_cursor_right();
        assert_eq!(app.cursor_pos, start);
    }
}
