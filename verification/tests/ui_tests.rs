use zero_code::app::{App, Message, MessageRole, ToolCall};
use zero_code::config::Config;
use zero_code::ui::{conversation_lines, input_line, input_title, status_line, Piece, Tone};

fn screen_text(app: &App) -> String {
    let mut content = String::new();
    for line in conversation_lines(app) {
        for p in line {
            content.push_str(&p.text);
        }
        content.push('\n');
    }
    content.push_str(input_title(app));
    content.push('\n');
    for p in input_line(app) {
        content.push_str(&p.text);
    }
    content.push('\n');
    for p in status_line(app) {
        content.push_str(&p.text);
    }
    content
}

fn texts(line: &[Piece]) -> Vec<String> {
    line.iter().map(|p| p.text.clone()).collect()
}

#[test]
fn test_streaming_cursor_renders() {
    let mut app = App::new(Config::default());
    app.streaming = true;
    app.messages.push(Message {
        role: MessageRole::Agent,
        content: "Thinking...".into(),
        tool_calls: None,
        tool_call_id: None,
        tool_result_error: false,
    });
    assert!(screen_text(&app).contains("▌"), "streaming cursor ▌ should be present");
}

#[test]
fn test_no_streaming_cursor_when_idle() {
    let mut app = App::new(Config::default());
    app.streaming = false;
    assert!(!screen_text(&app).contains("▌"), "no streaming cursor should appear when idle");
}

#[test]
fn test_agent_in_status_bar() {
    let mut app = App::new(Config::default());
    app.agent_active = true;
    assert!(screen_text(&app).contains("AGENT"), "status bar should show AGENT during agent activity");
}

#[test]
fn test_insert_in_status_bar() {
    let mut app = App::new(Config::default());
    app.agent_active = false;
    app.streaming = false;
    assert!(screen_text(&app).contains("INSERT"), "status bar should show INSERT when idle");
}

#[test]
fn test_input_agent_title() {
    let mut app = App::new(Config::default());
    app.agent_active = true;
    assert!(screen_text(&app).contains("agent..."), "input panel should show 'agent...' during agent activity");
}

#[test]
fn test_input_normal_title() {
    let mut app = App::new(Config::default());
    app.agent_active = false;
    assert!(screen_text(&app).contains(" Input "), "input panel should show normal ' Input ' title when idle");
}

#[test]
fn test_tool_call_renders() {
    let mut app = App::new(Config::default());
    app.messages.push(Message {
        role: MessageRole::Tool,
        content: "ls({\"path\":\"src\"})".into(),
        tool_calls: Some(vec![ToolCall {
            id: "call_1".into(),
            name: "ls".into(),
            arguments: "{\"path\":\"src\"}".into(),
        }]),
        tool_call_id: None,
        tool_result_error: false,
    });
    assert!(screen_text(&app).contains("ls("), "tool call should show function name");
}

#[test]
fn test_tool_result_renders() {
    let mut app = App::new(Config::default());
    app.messages.push(Message {
        role: MessageRole::Tool,
        content: "main.rs\napi.rs".into(),
        tool_call_id: Some("call_1".into()),
        tool_calls: None,
        tool_result_error: false,
    });
    assert!(screen_text(&app).contains("main.rs"), "tool result should show content");
}

#[test]
fn conversation_lines_and_tones() {
    let mut app = App::new(Config::default());
    app.messages.push(Message {
        role: MessageRole::Tool,
        content: "x".repeat(600),
        tool_call_id: Some("c".into()),
        tool_calls: None,
        tool_result_error: true,
    });
    let lines = conversation_lines(&app);
    assert_eq!(lines.len(), 2);
    assert_eq!(texts(&lines[0]), vec!["System: ".to_string(), "Welcome to Zero Code CLI. Type /help for available commands.".to_string()]);
    assert!(lines[0][0].tone == Tone::SystemLabel);
    assert_eq!(lines[1][0].text, format!("  {}... (truncated)", "x".repeat(500)));
    assert!(lines[1][0].tone == Tone::ToolError);
}

#[test]
fn input_line_highlights_cursor() {
    let mut app = App::new(Config::default());
    assert_eq!(texts(&input_line(&app)), vec!["> ".to_string(), " ".to_string()]);
    app.input = "héllo".into();
    app.cursor_pos = 1;
    assert_eq!(texts(&input_line(&app)), vec!["> ".to_string(), "h".to_string(), "é".to_string(), "llo".to_string()]);
    app.cursor_pos = 6;
    assert_eq!(texts(&input_line(&app)), vec!["> ".to_string(), "héllo".to_string(), " ".to_string(), String::new()]);
    assert!(input_line(&app)[2].tone == Tone::CursorCell);
}
