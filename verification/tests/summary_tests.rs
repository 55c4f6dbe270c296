use zero_code::app::{AgentEvent, Message, MessageRole, Mode};
use zero_code::session::SessionData;
use zero_code::summary::{
    all_transcripts, memory_document_text, request_fits, session_transcript, summarization_messages,
    transcript_clippable, SummaryAction, SummaryEvent, SummaryStage, Summarizer,
};

fn msg(role: MessageRole, content: &str) -> Message {
    Message { role, content: content.into(), tool_calls: None, tool_call_id: None, tool_result_error: false }
}

fn data(plan: Vec<Message>, build: Vec<Message>) -> SessionData {
    SessionData {
        session_name: "demo".into(),
        created_at: "2024-01-01 10:00:00".into(),
        updated_at: "2024-01-02 11:00:00".into(),
        plan_messages: plan,
        build_messages: build,
        plan_artifact: None,
        current_mode: Mode::Plan,
    }
}

fn token_texts(events: &[AgentEvent]) -> Vec<String> {
    events
        .iter()
        .map(|e| match e {
            AgentEvent::Token(t) => format!("token:{}", t),
            AgentEvent::Error(t) => format!("error:{}", t),
            AgentEvent::Done => "done".to_string(),
            _ => "other".to_string(),
        })
        .collect()
}

#[test]
fn transcript_skips_prompt_and_tool_messages() {
    let d = data(
        vec![
            msg(MessageRole::System, "welcome"),
            msg(MessageRole::System, "plan prompt"),
            msg(MessageRole::User, "design it"),
            msg(MessageRole::Tool, "tool output"),
        ],
        vec![msg(MessageRole::Agent, "done")],
    );
    assert!(transcript_clippable(&d));
    assert_eq!(
        session_transcript(&d),
        "=== Session: demo (created: 2024-01-01 10:00:00, updated: 2024-01-02 11:00:00) ===\n[User]: design it\n[Agent]: done\n\n"
    );
}

#[test]
fn transcript_keeps_last_hundred_and_clips_long_messages() {
    let mut plan = vec![msg(MessageRole::System, "w"), msg(MessageRole::System, "p")];
    for i in 0..120 {
        plan.push(msg(MessageRole::User, &format!("m{}", i)));
    }
    plan.push(msg(MessageRole::Agent, &"y".repeat(2500)));
    let d = data(plan, vec![]);
    let t = session_transcript(&d);
    assert!(!t.contains("[User]: m20\n"));
    assert!(t.contains("[User]: m21\n"));
    assert!(t.contains(&format!("[Agent]: {}...\n", "y".repeat(2000))));
    let all = all_transcripts(&[d]);
    assert_eq!(all, t);
}

#[test]
fn request_with_and_without_memory() {
    let msgs = summarization_messages("TEXTS", None);
    assert_eq!(msgs.len(), 2);
    assert_eq!(msgs[0].role, "system");
    assert!(msgs[0].content.as_deref().unwrap().starts_with("You are a knowledge summarization engine."));
    assert_eq!(
        msgs[1].content.as_deref(),
        Some("Here are the conversation transcripts from past sessions. Summarize them into a long-term memory document.\n\nTEXTS")
    );
    let msgs = summarization_messages("T", Some("OLD"));
    assert_eq!(msgs.len(), 3);
    assert!(msgs[2].content.as_deref().unwrap().ends_with("subjects.\n\nOLD"));
}

#[test]
fn request_cuts_long_texts() {
    assert!(request_fits("x", Some("y")));
    let long = "z".repeat(130_000);
    let msgs = summarization_messages(&long, Some(&"m".repeat(60_000)));
    let user = msgs[1].content.as_deref().unwrap();
    assert_eq!(user.len(), 120_000 + "\n\n[... content truncated due to length ...]".len());
    assert!(user.ends_with("\n\n[... content truncated due to length ...]"));
    let mem = msgs[2].content.as_deref().unwrap();
    assert!(mem.ends_with(&format!("{}...\n\n[... existing memory truncated ...]", "m".repeat(10))));
}

#[test]
fn memory_document_has_header() {
    assert_eq!(
        memory_document_text("proj", "2024-01-01 00:00:00", "  ## Topic: A\nx\n\n"),
        "# Long-Term Memory: proj\n# Generated: 2024-01-01 00:00:00\n#\n# This file is automatically generated. It summarizes accumulated knowledge\n# from past sessions into topic-based knowledge blocks.\n\n---\n\n## Topic: A\nx"
    );
}

#[test]
fn summarization_run_succeeds() {
    let mut s = Summarizer::new("proj".into());
    let (ev, action) = s.step(SummaryEvent::Collected(Ok("=== Session ===\n".into())));
    assert_eq!(token_texts(&ev), vec!["token:Collecting session data for summarization...\n".to_string()]);
    assert!(matches!(action, SummaryAction::LoadMemory));
    let (ev, action) = s.step(SummaryEvent::MemoryLoaded(None));
    assert_eq!(token_texts(&ev), vec!["token:Calling API to generate long-term memory summary...\n".to_string()]);
    match action {
        SummaryAction::CallApi(m) => assert_eq!(m.len(), 2),
        _ => panic!("expected a call"),
    }
    let (_, action) = s.step(SummaryEvent::ApiReplied { reply: Ok("## Topic: X\n".into()), now: "NOW".into() });
    match action {
        SummaryAction::Save(doc) => assert!(doc.starts_with("# Long-Term Memory: proj\n# Generated: NOW\n")),
        _ => panic!("expected a save"),
    }
    let (ev, action) = s.step(SummaryEvent::Saved(Ok(())));
    assert!(ev.is_empty());
    assert!(matches!(action, SummaryAction::CleanUp));
    let (ev, action) = s.step(SummaryEvent::Deleted(Ok(3)));
    assert_eq!(
        token_texts(&ev),
        vec!["token:Long-term memory updated. Deleted 3 session file(s).\n".to_string(), "done".to_string()]
    );
    assert!(matches!(action, SummaryAction::Finish));
    assert!(s.stage == SummaryStage::Finished);
}

#[test]
fn summarization_run_failures() {
    let mut s = Summarizer::new("p".into());
    let (ev, _) = s.step(SummaryEvent::Collected(Ok("   \n".into())));
    assert_eq!(token_texts(&ev), vec!["token:No session data to summarize.\n".to_string(), "done".to_string()]);

    let mut s = Summarizer::new("p".into());
    let (ev, _) = s.step(SummaryEvent::Collected(Err("denied".into())));
    assert_eq!(
        token_texts(&ev),
        vec![
            "token:Summarization failed: could not read session files: denied\n".to_string(),
            "error:Summarization failed: denied".to_string()
        ]
    );

    let mut s = Summarizer::new("p".into());
    s.step(SummaryEvent::Collected(Ok("t".into())));
    s.step(SummaryEvent::MemoryLoaded(Some("old".into())));
    let (ev, action) = s.step(SummaryEvent::ApiReplied { reply: Err("timeout".into()), now: "n".into() });
    assert_eq!(
        token_texts(&ev),
        vec!["token:Summarization API call failed: timeout\n".to_string(), "error:Summarization failed: timeout".to_string()]
    );
    assert!(matches!(action, SummaryAction::Finish));

    let mut s = Summarizer::new("p".into());
    let (ev, action) = s.step(SummaryEvent::Saved(Ok(())));
    assert!(ev.is_empty());
    assert!(matches!(action, SummaryAction::Finish));
    assert!(s.stage == SummaryStage::Collecting);
}
