use zero_code::tools::{
    bash_answer, check_read_size, CommandOutcome, command_output, edit_lines, edited_message, get_tool_definitions, ls_listing,
    plan_tool_call, search_output, select_lines, sort_names, wrote_message, ToolPlan,
};

fn reply(p: ToolPlan) -> (String, bool) {
    match p {
        ToolPlan::Reply { text, is_error } => (text, is_error),
        _ => panic!("expected an answer without work"),
    }
}

#[test]
fn test_tool_definitions_count() {
    let defs = get_tool_definitions();
    assert_eq!(defs.len(), 5, "should have 5 tools defined");
}

#[test]
fn test_tool_definitions_are_valid_json() {
    let defs = get_tool_definitions();
    let names: Vec<&str> = defs.iter().map(|d| d.function.name.as_str()).collect();
    assert_eq!(names, vec!["read_file", "write_file", "bash", "grep", "ls"]);
    for d in &defs {
        assert_eq!(d.tool_type, "function");
        assert!(!d.function.name.is_empty());
        assert!(!d.function.description.is_empty());
        assert_eq!(d.function.parameters_type, "object");
        for r in &d.function.required {
            assert!(d.function.properties.iter().any(|p| &p.name == r));
        }
    }
    assert_eq!(defs[1].function.required, vec!["path".to_string(), "content".to_string()]);
    assert!(defs[4].function.required.is_empty());
}

#[test]
fn test_execute_unknown_tool() {
    let (result, is_error) = reply(plan_tool_call("nonexistent", "{}"));
    assert!(is_error);
    assert!(result.contains("Unknown tool"));
}

#[test]
fn test_execute_read_file_missing_path() {
    let (result, is_error) = reply(plan_tool_call("read_file", "{}"));
    assert!(is_error);
    assert!(result.contains("Missing required parameter"));
}

#[test]
fn test_execute_write_file_path_traversal() {
    let (result, is_error) = reply(plan_tool_call("write_file", r#"{"path": "../etc/passwd", "content": "x"}"#));
    assert!(is_error);
    assert!(result.contains("Path traversal"));
}

#[test]
fn test_execute_write_file_missing_content() {
    let (result, is_error) = reply(plan_tool_call("write_file", r#"{"path": "/tmp/test.txt"}"#));
    assert!(is_error);
    assert!(result.contains("Missing required parameter"));
}

#[test]
fn test_execute_bash_missing_command() {
    let (result, is_error) = reply(plan_tool_call("bash", "{}"));
    assert!(is_error);
    assert!(result.contains("Missing required parameter"));
}

#[test]
fn test_execute_read_file_start_gt_end_error() {
    let args = r#"{"path": "/tmp/test.txt", "start_line": 5, "end_line": 3}"#;
    let (result, is_error) = reply(plan_tool_call("read_file", args));
    assert!(is_error);
    assert!(result.contains("start_line must be <= end_line"));
}

#[test]
fn test_execute_read_file_start_lt_1_error() {
    let args = r#"{"path": "/tmp/test.txt", "start_line": 0}"#;
    let (result, is_error) = reply(plan_tool_call("read_file", args));
    assert!(is_error);
    assert!(result.contains("start_line must be >= 1"));
}

#[test]
fn test_execute_write_file_start_lt_1_error() {
    let args = r#"{"path": "/tmp/a.txt", "start_line": 0, "content": "x"}"#;
    let (result, is_error) = reply(plan_tool_call("write_file", args));
    assert!(is_error);
    assert!(result.contains("start_line must be >= 1"));
}

#[test]
fn test_execute_write_file_start_gt_end_error() {
    let args = r#"{"path": "/tmp/a.txt", "start_line": 5, "end_line": 3, "content": "x"}"#;
    let (result, is_error) = reply(plan_tool_call("write_file", args));
    assert!(is_error);
    assert!(result.contains("start_line must be <= end_line"));
}

#[test]
fn invalid_json_is_reported() {
    let (result, is_error) = reply(plan_tool_call("ls", "{not json"));
    assert!(is_error);
    assert!(result.starts_with("Invalid arguments JSON: "));
}

#[test]
fn plans_carry_the_arguments() {
    match plan_tool_call("read_file", r#"{"path": "a.txt", "start_line": 2, "end_line": 4}"#) {
        ToolPlan::ReadFile { path, start_line, end_line } => {
            assert_eq!(path, "a.txt");
            assert_eq!(start_line, Some(2));
            assert_eq!(end_line, Some(4));
        }
        _ => panic!("expected a read"),
    }
    match plan_tool_call("bash", r#"{"command": "echo hello"}"#) {
        ToolPlan::Bash { command, timeout_ms } => {
            assert_eq!(command, "echo hello");
            assert_eq!(timeout_ms, 30000);
        }
        _ => panic!("expected a command"),
    }
    match plan_tool_call("bash", r#"{"command": "sleep 1", "timeout_ms": 999999}"#) {
        ToolPlan::Bash { timeout_ms, .. } => assert_eq!(timeout_ms, 120000),
        _ => panic!("expected a command"),
    }
    match plan_tool_call("ls", "{}") {
        ToolPlan::Ls { path } => assert_eq!(path, "."),
        _ => panic!("expected a listing"),
    }
    match plan_tool_call("grep", r#"{"pattern": "fn main", "path": "src"}"#) {
        ToolPlan::Grep { pattern, path } => {
            assert_eq!(pattern, "fn main");
            assert_eq!(path, "src");
        }
        _ => panic!("expected a search"),
    }
    let (result, is_error) = reply(plan_tool_call("grep", r#"{"pattern": "x"}"#));
    assert!(is_error);
    assert_eq!(result, "Missing required parameter: path");
}

#[test]
fn test_execute_read_file_with_line_range() {
    assert_eq!(select_lines("line1\nline2\nline3\nline4\nline5", Some(2), Some(4)), "line2\nline3\nline4");
}

#[test]
fn test_execute_read_file_start_line_only() {
    assert_eq!(select_lines("line1\nline2\nline3\nline4\nline5", Some(3), None), "line3\nline4\nline5");
}

#[test]
fn test_execute_read_file_end_line_only() {
    assert_eq!(select_lines("line1\nline2\nline3\nline4\nline5", None, Some(2)), "line1\nline2");
}

#[test]
fn test_execute_read_file_start_beyond_eof() {
    assert_eq!(select_lines("a\nb\nc", Some(10), None), "");
}

#[test]
fn test_execute_read_file_end_clamped() {
    assert_eq!(select_lines("a\nb\nc", Some(2), Some(10)), "b\nc");
}

#[test]
fn test_execute_read_file_backward_compat_no_lines() {
    assert_eq!(select_lines("hello\nworld", None, None), "hello\nworld");
}

#[test]
fn read_size_limit() {
    assert_eq!(check_read_size(1_048_576), None);
    assert_eq!(
        check_read_size(2_000_000),
        Some("File is 2000000 bytes, exceeds max read size of 1048576 bytes (1MB). Try reading a smaller portion.".to_string())
    );
}

#[test]
fn test_execute_write_file_line_range_edit() {
    let edited = edit_lines("line1\nline2\nline3\nline4\nline5", Some(2), Some(3), "NEW_A\nNEW_B").unwrap();
    assert_eq!(edited, "line1\nNEW_A\nNEW_B\nline4\nline5");
    let msg = edited_message("f.txt", Some(2), Some(3), edited.len() as u64);
    assert!(msg.contains("Successfully edited"));
    assert_eq!(msg, "Successfully edited f.txt: replaced lines 2-3 (29 bytes written)");
}

#[test]
fn test_execute_write_file_single_line_replace() {
    assert_eq!(edit_lines("line1\nline2\nline3", Some(2), None, "REPLACED").unwrap(), "line1\nREPLACED\nline3");
}

#[test]
fn test_execute_write_file_insert_at_end() {
    assert_eq!(edit_lines("line1\nline2", Some(3), None, "line3\nline4").unwrap(), "line1\nline2\nline3\nline4");
}

#[test]
fn test_execute_write_file_delete_lines() {
    assert_eq!(edit_lines("line1\nline2\nline3\nline4", Some(2), Some(3), "").unwrap(), "line1\nline4");
}

#[test]
fn test_execute_write_file_invalid_range_gap() {
    let err = edit_lines("a\nb\nc", Some(10), None, "x").unwrap_err();
    assert!(err.contains("exceeds file length"));
    assert_eq!(err, "start_line 10 exceeds file length 3 + 1; cannot insert with a gap");
}

#[test]
fn test_execute_write_file_backward_compat_no_lines() {
    let msg = wrote_message("/tmp/x.txt", 11);
    assert!(msg.contains("Successfully wrote"));
    assert_eq!(msg, "Successfully wrote 11 bytes to /tmp/x.txt");
}

#[test]
fn test_execute_write_file_new_file_with_line_range() {
    assert_eq!(edit_lines("", Some(1), None, "hello\nworld").unwrap(), "hello\nworld");
}

#[test]
fn test_execute_write_file_new_file_start_gt_1_error() {
    let err = edit_lines("", Some(5), None, "x").unwrap_err();
    assert_eq!(err, "start_line 5 exceeds file length 0 + 1; cannot insert with a gap");
    let err = edit_lines("", Some(2), None, "x").unwrap_err();
    assert_eq!(err, "start_line 2 exceeds file length 0 + 1; cannot insert with a gap");
}

#[test]
fn test_execute_write_file_multi_line_content() {
    assert_eq!(edit_lines("before\nTARGET\nafter", Some(2), None, "A\nB\nC").unwrap(), "before\nA\nB\nC\nafter");
}

#[test]
fn edit_then_read_gives_back_content() {
    let edited = edit_lines("one\ntwo\nthree\nfour", Some(2), Some(3), "X\nY\nZ").unwrap();
    assert_eq!(select_lines(&edited, Some(2), Some(4)), "X\nY\nZ");
}

#[test]
fn test_execute_bash_echo() {
    let (result, is_error) = command_output("hello\n", "", true);
    assert!(!is_error);
    assert!(result.contains("hello"));
}

#[test]
fn command_output_forms() {
    assert_eq!(command_output("", "", true), ("(no output)".to_string(), false));
    assert_eq!(command_output("out", "err", false), ("out\nstderr:\nerr".to_string(), true));
    assert_eq!(command_output("", "err", true), ("stderr:\nerr".to_string(), false));
}

#[test]
fn search_output_forms() {
    assert_eq!(search_output("grep", "", "", false, Some(1)), ("No matches found.".to_string(), false));
    assert_eq!(search_output("grep", "", "bad regex", false, Some(2)), ("grep error: bad regex".to_string(), true));
    assert_eq!(search_output("grep", "a:1:x\n", "", true, Some(0)), ("a:1:x\n".to_string(), false));
    assert_eq!(search_output("grep", "", "", false, Some(2)), ("No matches found.".to_string(), true));
    let big = "x".repeat(102_401);
    let (r, e) = search_output("grep", &big, "", true, Some(0));
    assert!(!e);
    assert_eq!(r, format!("{}\n... (truncated, 102401 bytes total)", "x".repeat(102_400)));
}

#[test]
fn test_execute_ls_current_dir() {
    let items = vec!["main.rs".to_string(), "app.rs".to_string(), "tools/".to_string()];
    let (result, is_error) = ls_listing("src", items);
    assert!(!is_error);
    assert!(result.contains("main.rs"));
    assert_eq!(result, "app.rs\nmain.rs\ntools/");
}

#[test]
fn listing_of_empty_directory() {
    assert_eq!(ls_listing("/tmp/empty", vec![]), ("/tmp/empty (empty directory)".to_string(), false));
}

#[test]
fn names_sort_like_strings() {
    let v = vec!["b".to_string(), "B".to_string(), "a".to_string(), "é".to_string(), "ab".to_string(), "a".to_string()];
    let mut expected = v.clone();
    expected.sort();
    assert_eq!(sort_names(v), expected);
}

#[test]
fn grep_output_is_cut_at_100_kb_on_a_character_boundary() {
    // 'é' takes two bytes: 60000 of them are 120000 bytes.
    let big = "é".repeat(60_000);
    let (r, e) = search_output("grep", &big, "", true, Some(0));
    assert!(!e);
    assert_eq!(r, format!("{}\n... (truncated, 120000 bytes total)", "é".repeat(51_200)));
    // A three-byte character that would cross the limit is left out.
    let mixed = format!("{}€{}", "a".repeat(102_398), "b".repeat(10));
    let (r, _) = search_output("grep", &mixed, "", true, Some(0));
    assert_eq!(r, format!("{}\n... (truncated, 102411 bytes total)", "a".repeat(102_398)));
}

#[test]
fn bash_answers_timeouts_and_finished_commands() {
    assert_eq!(bash_answer(CommandOutcome::TimedOut, 30000), ("Command timed out after 30000ms".to_string(), true));
    let done = CommandOutcome::Finished { stdout: "hi\n".to_string(), stderr: String::new(), success: true };
    assert_eq!(bash_answer(done, 30000), ("hi\n".to_string(), false));
}

#[test]
fn offered_tools_are_never_unknown() {
    for d in get_tool_definitions() {
        let (text, _) = match plan_tool_call(&d.function.name, "{}") {
            ToolPlan::Reply { text, is_error } => (text, is_error),
            _ => (String::new(), false),
        };
        assert!(!text.starts_with("Unknown tool"));
    }
}
