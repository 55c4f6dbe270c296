use zero_code::agent::{AgentAction, AgentInput, AgentRun};
use zero_code::api::CompletedToolCall;
use zero_code::app::{AgentEvent, Message, MessageRole};
use zero_code::config::Config;

fn call(id: &str, name: &str, args: &str) -> CompletedToolCall {
    CompletedToolCall { id: id.into(), name: name.into(), arguments: args.into() }
}

fn user(text: &str) -> Message {
    Message { role: MessageRole::User, content: text.into(), tool_calls: None, tool_call_id: None, tool_result_error: false }
}

#[test]
fn run_without_tools_is_done() {
    let mut run = AgentRun::new(&Config::default(), vec![user("hi")]);
    let (ev, action) = run.step(AgentInput::ApiOk(vec![]));
    assert!(matches!(ev[0], AgentEvent::Done));
    assert!(matches!(action, AgentAction::Stop));
    assert!(run.finished);
}

#[test]
fn run_executes_tools_in_order() {
    let mut run = AgentRun::new(&Config::default(), vec![user("list")]);
    let (ev, action) = run.step(AgentInput::ApiOk(vec![call("c1", "ls", "{}"), call("c2", "bash", "{\"command\":\"pwd\"}")]));
    assert!(ev.is_empty());
    assert!(matches!(&action, AgentAction::RunTool { name, .. } if name == "ls"));
    assert_eq!(run.messages.len(), 2);
    assert_eq!(run.messages[1].role, MessageRole::Agent);
    assert_eq!(run.messages[1].tool_calls.as_ref().unwrap().len(), 2);
    let (ev, action) = run.step(AgentInput::ToolDone { result: "a\nb".into(), is_error: false });
    assert!(matches!(&ev[0], AgentEvent::ToolCallEnd { id, result, .. } if id == "c1" && result == "a\nb"));
    assert!(matches!(&action, AgentAction::RunTool { name, arguments } if name == "bash" && arguments == "{\"command\":\"pwd\"}"));
    let (_, action) = run.step(AgentInput::ToolDone { result: "/".into(), is_error: true });
    assert!(matches!(action, AgentAction::CallApi));
    assert_eq!(run.iteration, 1);
    assert_eq!(run.messages.len(), 4);
    assert_eq!(run.messages[3].tool_call_id.as_deref(), Some("c2"));
    assert!(run.messages[3].tool_result_error);
}

#[test]
fn run_retries_with_growing_delay() {
    let mut run = AgentRun::new(&Config::default(), vec![user("x")]);
    assert!(run.failure_fits());
    let (ev, action) = run.step(AgentInput::ApiErr("503".into()));
    assert!(matches!(&ev[0], AgentEvent::Token(t) if t == "\n[API call failed, retrying in 2s (attempt 1/3)...]\n"));
    assert!(matches!(action, AgentAction::Retry { delay_secs: 2 }));
    let (ev, action) = run.step(AgentInput::ApiErr("503".into()));
    assert!(matches!(&ev[0], AgentEvent::Token(t) if t == "\n[API call failed, retrying in 4s (attempt 2/3)...]\n"));
    assert!(matches!(action, AgentAction::Retry { delay_secs: 4 }));
    let (ev, action) = run.step(AgentInput::ApiErr("gone".into()));
    assert!(matches!(&ev[0], AgentEvent::Error(t) if t == "gone"));
    assert!(matches!(action, AgentAction::Stop));
}

#[test]
fn run_stops_after_ten_rounds() {
    let mut run = AgentRun::new(&Config::default(), vec![user("loop")]);
    let mut last = Vec::new();
    for round in 0..10 {
        let (_, action) = run.step(AgentInput::ApiOk(vec![call("c", "ls", "{}")]));
        assert!(matches!(action, AgentAction::RunTool { .. }), "round {}", round);
        let (ev, _) = run.step(AgentInput::ToolDone { result: "r".into(), is_error: false });
        last = ev;
    }
    assert!(run.finished);
    assert!(matches!(&last[1], AgentEvent::Error(t) if t == "Agent reached max iterations (10) without completing the task."));
    let (ev, action) = run.step(AgentInput::ApiOk(vec![]));
    assert!(ev.is_empty());
    assert!(matches!(action, AgentAction::Stop));
}

#[test]
fn failing_model_is_called_at_most_retry_count_plus_one_times() {
    let mut run = AgentRun::new(&Config::default(), vec![user("x")]);
    let mut calls = 1;
    let mut finals = 0;
    loop {
        let (ev, action) = run.step(AgentInput::ApiErr("down".into()));
        finals += ev.iter().filter(|e| matches!(e, AgentEvent::Done | AgentEvent::Error(_))).count();
        match action {
            AgentAction::Retry { .. } | AgentAction::CallApi => calls += 1,
            AgentAction::Stop => break,
            _ => panic!("unexpected action"),
        }
    }
    assert_eq!(calls, 3);
    assert_eq!(finals, 1);
    let (ev, action) = run.step(AgentInput::ApiErr("again".into()));
    assert!(ev.is_empty());
    assert!(matches!(action, AgentAction::Stop));
}
