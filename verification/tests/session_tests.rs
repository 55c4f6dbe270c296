use zero_code::app::{Message, MessageRole};
use zero_code::logger::debug_entry;
use zero_code::session::{
    days_to_date, generate_session_name, make_session_filename, now_readable, readable_time, sanitize_filename,
    secs_to_datetime, session_filename_at, sort_sessions, SessionInfo,
};

fn msg(role: MessageRole, content: &str) -> Message {
    Message { role, content: content.into(), tool_calls: None, tool_call_id: None, tool_result_error: false }
}

#[test]
fn sanitize_replaces_and_trims() {
    assert_eq!(sanitize_filename("fix: the/bug now", 40), "fix__the_bug_now");
    assert_eq!(sanitize_filename("  ***  ", 40), "session");
    assert_eq!(sanitize_filename("abcdefghij", 4), "abcd");
    assert_eq!(sanitize_filename("_a_", 40), "a");
}

#[test]
fn sanitize_replaces_unicode_white_space() {
    assert_eq!(sanitize_filename("a\u{3000}b\u{85}c\u{2003}d\u{a0}e", 40), "a_b_c_d_e");
    assert_eq!(sanitize_filename("a\u{200b}b", 40), "a\u{200b}b");
}

#[test]
fn session_name_from_first_user_message() {
    let plan = vec![msg(MessageRole::System, "welcome"), msg(MessageRole::Agent, "hi")];
    let build = vec![msg(MessageRole::User, "Write a parser for TOML files please, quickly"), msg(MessageRole::User, "second")];
    assert_eq!(generate_session_name(&plan, &build), "Write_a_parser_for_TOML_files_please,_qu");
    assert_eq!(generate_session_name(&plan, &[]), "session");
}

#[test]
fn session_file_names() {
    assert_eq!(session_filename_at("demo", 42), "demo_42.json");
    let f = make_session_filename("demo");
    assert!(f.starts_with("demo_"));
    assert!(f.ends_with(".json"));
}

#[test]
fn sessions_listed_newest_first() {
    let info = |f: &str, u: &str| SessionInfo { filename: f.into(), session_name: f.into(), updated_at: u.into() };
    let sorted = sort_sessions(vec![
        info("a", "2024-01-01 10:00:00"),
        info("b", "2025-03-01 09:00:00"),
        info("c", "2024-01-01 10:00:00"),
        info("d", "2023-12-31 23:59:59"),
    ]);
    let names: Vec<&str> = sorted.iter().map(|s| s.filename.as_str()).collect();
    assert_eq!(names, vec!["b", "a", "c", "d"]);
}

#[test]
fn calendar_dates() {
    assert_eq!(days_to_date(0), (1970, 1, 1));
    assert_eq!(days_to_date(59), (1970, 3, 1));
    assert_eq!(days_to_date(11016), (2000, 2, 29));
    assert_eq!(days_to_date(-1), (1969, 12, 31));
    assert_eq!(days_to_date(19723), (2024, 1, 1));
    assert_eq!(days_to_date(-719468), (0, 3, 1));
}

#[test]
fn datetime_of_unix_time() {
    assert_eq!(secs_to_datetime(0), (1970, 1, 1, 0, 0, 0));
    assert_eq!(secs_to_datetime(1_700_000_000), (2023, 11, 14, 22, 13, 20));
    assert_eq!(readable_time(1_700_000_000), "2023-11-14 22:13:20");
    assert_eq!(readable_time(86399), "1970-01-01 23:59:59");
}

#[test]
fn now_is_readable() {
    let now = now_readable();
    assert_eq!(now.len(), 19);
    assert_eq!(&now[4..5], "-");
    assert_eq!(&now[10..11], " ");
}

#[test]
fn debug_log_entry() {
    assert_eq!(debug_entry("src/main.rs", 42, "started"), "[DEBUG] src/main.rs:42 started\n");
}

#[test]
fn next_day_number_is_next_calendar_day() {
    assert_eq!(days_to_date(11016), (2000, 2, 29));
    assert_eq!(days_to_date(11017), (2000, 3, 1));
    assert_eq!(days_to_date(-1), (1969, 12, 31));
    assert_eq!(days_to_date(0), (1970, 1, 1));
    assert_eq!(days_to_date(-25567), (1900, 1, 1));
    assert_eq!(days_to_date(-25568), (1899, 12, 31));
    assert_eq!(days_to_date(-25508), (1900, 3, 1));
    assert_eq!(days_to_date(-25509), (1900, 2, 28));
}
