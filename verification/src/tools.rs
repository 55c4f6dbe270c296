//! The agent's tools: their definitions, the checks on a call's arguments,
//! and the pure parts of their work (line ranges, edits, output formatting).
//! Reading and writing files and running processes is left to the caller.

use vstd::prelude::*;
use crate::text::{
    byte_len, byte_len_exceeds, chars_of, contains, contains_exec, decimal, decimal_string, join,
    join_lines, lines, lines_of, slice_range, str_byte_len, string_of, text_le, text_le_exec,
    lemma_text_le_total, lemma_text_le_trans, class_pred, lemma_scan, CharClass, char_width, char_len_utf8,
    lemma_take_front,
};

verus! {

// ---------------------------------------------------------------------------
// Definitions
// ---------------------------------------------------------------------------

/// One parameter of a tool.
pub struct ParamSpec {
    pub name: String,
    pub param_type: String,
    pub description: String,
}

/// A tool as the model sees it: name, description and parameters. The
/// parameters form a JSON schema whose type is `parameters_type`.
pub struct FunctionDef {
    pub name: String,
    pub description: String,
    pub parameters_type: String,
    pub properties: Vec<ParamSpec>,
    pub required: Vec<String>,
}

/// A tool offered to the model.
pub struct ToolDefinition {
    pub tool_type: String,
    pub function: FunctionDef,
}

/// Whether a tool has a parameter of the given name.
pub open spec fn has_param(f: FunctionDef, name: Seq<char>) -> bool {
    exists|k: int| 0 <= k < f.properties@.len() && (#[trigger] f.properties@[k]).name@ == name
}

/// A parameter as `(name, type, description)`.
pub open spec fn param_view(p: ParamSpec) -> (Seq<char>, Seq<char>, Seq<char>) {
    (p.name@, p.param_type@, p.description@)
}

/// A tool definition as `(name, description, parameters, required
/// parameters)`.
pub open spec fn tool_view(d: ToolDefinition) -> (Seq<char>, Seq<char>, Seq<(Seq<char>, Seq<char>, Seq<char>)>, Seq<Seq<char>>) {
    (
        d.function.name@,
        d.function.description@,
        d.function.properties@.map_values(|p: ParamSpec| param_view(p)),
        d.function.required@.map_values(|s: String| s@),
    )
}

/// The tools, in order: names, descriptions, parameters with their JSON
/// types and descriptions, and the parameters that a call must give.
pub open spec fn tool_catalog() -> Seq<(Seq<char>, Seq<char>, Seq<(Seq<char>, Seq<char>, Seq<char>)>, Seq<Seq<char>>)> {
    seq![
        (
            "read_file"@,
            "Read a file. Supports optional start_line and end_line (1-indexed, inclusive) for partial reads."@,
            seq![
                ("path"@, "string"@, "Absolute or relative path to the file to read"@),
                ("start_line"@, "integer"@, "Optional 1-indexed start line. Reads from this line to end of file (or to end_line if provided)."@),
                ("end_line"@, "integer"@, "Optional 1-indexed end line (inclusive). Clamped to last line if it exceeds the file length."@),
            ],
            seq!["path"@],
        ),
        (
            "write_file"@,
            "Write or overwrite a file. Supports optional start_line and end_line for partial edits (replaces those lines with content). Creates parent directories if needed."@,
            seq![
                ("path"@, "string"@, "Path to the file to write"@),
                ("content"@, "string"@, "Content to write to the file"@),
                ("start_line"@, "integer"@, "Optional 1-indexed start line for partial edit. Replaces lines [start_line, end_line] with content. If omitted, overwrites the entire file."@),
                ("end_line"@, "integer"@, "Optional 1-indexed end line (inclusive). Defaults to start_line if omitted. Lines in range are replaced."@),
            ],
            seq!["path"@, "content"@],
        ),
        (
            "bash"@,
            "Execute a shell command and return its stdout and stderr. Default timeout 30 seconds, max 120 seconds."@,
            seq![
                ("command"@, "string"@, "The shell command to execute"@),
                ("timeout_ms"@, "integer"@, "Optional timeout in milliseconds (max 120000)"@),
            ],
            seq!["command"@],
        ),
        (
            "grep"@,
            "Search for a regex pattern in files under a directory. Uses grep -rn under the hood. Returns matching lines with file paths and line numbers."@,
            seq![
                ("pattern"@, "string"@, "Regex pattern to search for"@),
                ("path"@, "string"@, "Directory or file path to search in"@),
            ],
            seq!["pattern"@, "path"@],
        ),
        (
            "ls"@,
            "List files and directories at the given path. Defaults to current directory."@,
            seq![("path"@, "string"@, "Directory path to list. Defaults to current directory."@)],
            seq![],
        ),
    ]
}

fn param(name: &str, param_type: &str, description: &str) -> (p: ParamSpec)
    ensures
        param_view(p) == (name@, param_type@, description@),
{
    ParamSpec { name: name.to_owned(), param_type: param_type.to_owned(), description: description.to_owned() }
}

fn function_tool(name: &str, description: &str, properties: Vec<ParamSpec>, required: Vec<String>) -> (d: ToolDefinition)
    ensures
        d.tool_type@ == "function"@,
        d.function.name@ == name@,
        d.function.description@ == description@,
        d.function.parameters_type@ == "object"@,
        d.function.properties == properties,
        d.function.required == required,
{
    ToolDefinition {
        tool_type: "function".to_owned(),
        function: FunctionDef {
            name: name.to_owned(),
            description: description.to_owned(),
            parameters_type: "object".to_owned(),
            properties,
            required,
        },
    }
}

/// `get_tool_definitions`: the five tools that the agent offers.
pub fn get_tool_definitions() -> (defs: Vec<ToolDefinition>)
    ensures
        defs@.len() == 5,
        defs@.map_values(|d: ToolDefinition| tool_view(d)) == tool_catalog(),
        forall|i: int| 0 <= i < defs@.len() ==> (#[trigger] defs@[i]).tool_type@ == "function"@,
        forall|i: int| 0 <= i < defs@.len() ==> (#[trigger] defs@[i]).function.parameters_type@ == "object"@,
        forall|i: int, j: int| 0 <= i < defs@.len() && 0 <= j < defs@[i].function.required@.len()
            ==> has_param(defs@[i].function, #[trigger] defs@[i].function.required@[j]@),
{
    let mut defs: Vec<ToolDefinition> = Vec::new();

    let mut p: Vec<ParamSpec> = Vec::new();
    p.push(param("path", "string", "Absolute or relative path to the file to read"));
    p.push(param("start_line", "integer", "Optional 1-indexed start line. Reads from this line to end of file (or to end_line if provided)."));
    p.push(param("end_line", "integer", "Optional 1-indexed end line (inclusive). Clamped to last line if it exceeds the file length."));
    let mut r: Vec<String> = Vec::new();
    r.push("path".to_owned());
    let ghost p0 = p@;
    let ghost r0 = r@;
    defs.push(function_tool(
        "read_file",
        "Read a file. Supports optional start_line and end_line (1-indexed, inclusive) for partial reads.",
        p,
        r,
    ));

    let mut p: Vec<ParamSpec> = Vec::new();
    p.push(param("path", "string", "Path to the file to write"));
    p.push(param("content", "string", "Content to write to the file"));
    p.push(param("start_line", "integer", "Optional 1-indexed start line for partial edit. Replaces lines [start_line, end_line] with content. If omitted, overwrites the entire file."));
    p.push(param("end_line", "integer", "Optional 1-indexed end line (inclusive). Defaults to start_line if omitted. Lines in range are replaced."));
    let mut r: Vec<String> = Vec::new();
    r.push("path".to_owned());
    r.push("content".to_owned());
    let ghost p1 = p@;
    let ghost r1 = r@;
    defs.push(function_tool(
        "write_file",
        "Write or overwrite a file. Supports optional start_line and end_line for partial edits (replaces those lines with content). Creates parent directories if needed.",
        p,
        r,
    ));

    let mut p: Vec<ParamSpec> = Vec::new();
    p.push(param("command", "string", "The shell command to execute"));
    p.push(param("timeout_ms", "integer", "Optional timeout in milliseconds (max 120000)"));
    let mut r: Vec<String> = Vec::new();
    r.push("command".to_owned());
    let ghost p2 = p@;
    let ghost r2 = r@;
    defs.push(function_tool(
        "bash",
        "Execute a shell command and return its stdout and stderr. Default timeout 30 seconds, max 120 seconds.",
        p,
        r,
    ));

    let mut p: Vec<ParamSpec> = Vec::new();
    p.push(param("pattern", "string", "Regex pattern to search for"));
    p.push(param("path", "string", "Directory or file path to search in"));
    let mut r: Vec<String> = Vec::new();
    r.push("pattern".to_owned());
    r.push("path".to_owned());
    let ghost p3 = p@;
    let ghost r3 = r@;
    defs.push(function_tool(
        "grep",
        "Search for a regex pattern in files under a directory. Uses grep -rn under the hood. Returns matching lines with file paths and line numbers.",
        p,
        r,
    ));

    let mut p: Vec<ParamSpec> = Vec::new();
    p.push(param("path", "string", "Directory path to list. Defaults to current directory."));
    let r: Vec<String> = Vec::new();
    let ghost p4 = p@;
    let ghost r4 = r@;
    defs.push(function_tool(
        "ls",
        "List files and directories at the given path. Defaults to current directory.",
        p,
        r,
    ));

    proof {
        assert(p0.map_values(|p: ParamSpec| param_view(p)) =~= tool_catalog()[0].2);
        assert(r0.map_values(|s: String| s@) =~= tool_catalog()[0].3);
        assert(p1.map_values(|p: ParamSpec| param_view(p)) =~= tool_catalog()[1].2);
        assert(r1.map_values(|s: String| s@) =~= tool_catalog()[1].3);
        assert(p2.map_values(|p: ParamSpec| param_view(p)) =~= tool_catalog()[2].2);
        assert(r2.map_values(|s: String| s@) =~= tool_catalog()[2].3);
        assert(p3.map_values(|p: ParamSpec| param_view(p)) =~= tool_catalog()[3].2);
        assert(r3.map_values(|s: String| s@) =~= tool_catalog()[3].3);
        assert(p4.map_values(|p: ParamSpec| param_view(p)) =~= tool_catalog()[4].2);
        assert(r4.map_values(|s: String| s@) =~= tool_catalog()[4].3);
        assert(defs@.map_values(|d: ToolDefinition| tool_view(d)) =~= tool_catalog());
        assert(has_param(defs@[0].function, "path"@)) by { assert(p0[0].name@ == "path"@); }
        assert(has_param(defs@[1].function, "path"@)) by { assert(p1[0].name@ == "path"@); }
        assert(has_param(defs@[1].function, "content"@)) by { assert(p1[1].name@ == "content"@); }
        assert(has_param(defs@[2].function, "command"@)) by { assert(p2[0].name@ == "command"@); }
        assert(has_param(defs@[3].function, "pattern"@)) by { assert(p3[0].name@ == "pattern"@); }
        assert(has_param(defs@[3].function, "path"@)) by { assert(p3[1].name@ == "path"@); }
    }
    defs
}


// ---------------------------------------------------------------------------
// Arguments of a call
// ---------------------------------------------------------------------------

/// The arguments that the tools read from a call's JSON object: each string
/// or unsigned integer member, when present with that type.
pub struct ToolArgs {
    pub path: Option<String>,
    pub content: Option<String>,
    pub command: Option<String>,
    pub pattern: Option<String>,
    pub start_line: Option<u64>,
    pub end_line: Option<u64>,
    pub timeout_ms: Option<u64>,
}

/// The arguments as plain values.
pub struct ToolArgsView {
    pub path: Option<Seq<char>>,
    pub content: Option<Seq<char>>,
    pub command: Option<Seq<char>>,
    pub pattern: Option<Seq<char>>,
    pub start_line: Option<u64>,
    pub end_line: Option<u64>,
    pub timeout_ms: Option<u64>,
}

/// The text of an optional string.
pub open spec fn sview(o: Option<String>) -> Option<Seq<char>> {
    match o {
        Some(s) => Some(s@),
        None => None,
    }
}

/// The arguments as plain values.
pub open spec fn args_view(a: ToolArgs) -> ToolArgsView {
    ToolArgsView {
        path: sview(a.path),
        content: sview(a.content),
        command: sview(a.command),
        pattern: sview(a.pattern),
        start_line: a.start_line,
        end_line: a.end_line,
        timeout_ms: a.timeout_ms,
    }
}

/// What `serde_json` makes of a call's argument text: the members that the
/// tools read, or the message of the parse error.
pub uninterp spec fn json_tool_args(text: Seq<char>) -> Result<ToolArgsView, Seq<char>>;

/// `serde_json::from_str::<serde_json::Value>` on the argument text, then
/// the members `path`, `content`, `command`, `pattern` as strings and
/// `start_line`, `end_line`, `timeout_ms` as unsigned integers (each absent
/// when missing or of another type); on a parse error its message. The
/// result is the name `json_tool_args` of the text; nothing more is stated
/// of JSON parsing.
#[verifier::external_body]
fn parse_tool_args(arguments: &str) -> (r: Result<ToolArgs, String>)
    ensures
        match r {
            Ok(a) => json_tool_args(arguments@) == Ok::<ToolArgsView, Seq<char>>(args_view(a)),
            Err(e) => json_tool_args(arguments@) == Err::<ToolArgsView, Seq<char>>(e@),
        },
{
    let v: serde_json::Value = match serde_json::from_str(arguments) {
        Ok(v) => v,
        Err(e) => return Err(e.to_string()),
    };
    Ok(ToolArgs {
        path: v["path"].as_str().map(String::from),
        content: v["content"].as_str().map(String::from),
        command: v["command"].as_str().map(String::from),
        pattern: v["pattern"].as_str().map(String::from),
        start_line: v["start_line"].as_u64(),
        end_line: v["end_line"].as_u64(),
        timeout_ms: v["timeout_ms"].as_u64(),
    })
}

/// The work that a tool call asks for, once its arguments are checked.
pub enum ToolPlan {
    /// An answer given without touching the system (an error).
    Reply { text: String, is_error: bool },
    ReadFile { path: String, start_line: Option<u64>, end_line: Option<u64> },
    WriteFile { path: String, content: String, start_line: Option<u64>, end_line: Option<u64> },
    Bash { command: String, timeout_ms: u64 },
    Grep { pattern: String, path: String },
    Ls { path: String },
}

/// A plan as plain values.
pub enum PlanView {
    Reply(Seq<char>, bool),
    ReadFile(Seq<char>, Option<u64>, Option<u64>),
    WriteFile(Seq<char>, Seq<char>, Option<u64>, Option<u64>),
    Bash(Seq<char>, u64),
    Grep(Seq<char>, Seq<char>),
    Ls(Seq<char>),
}

/// A plan as plain values.
pub open spec fn plan_view(p: ToolPlan) -> PlanView {
    match p {
        ToolPlan::Reply { text, is_error } => PlanView::Reply(text@, is_error),
        ToolPlan::ReadFile { path, start_line, end_line } => PlanView::ReadFile(path@, start_line, end_line),
        ToolPlan::WriteFile { path, content, start_line, end_line } => PlanView::WriteFile(path@, content@, start_line, end_line),
        ToolPlan::Bash { command, timeout_ms } => PlanView::Bash(command@, timeout_ms),
        ToolPlan::Grep { pattern, path } => PlanView::Grep(pattern@, path@),
        ToolPlan::Ls { path } => PlanView::Ls(path@),
    }
}

/// The checks on a line range: a start line counts from 1, and a start line
/// does not come after an end line.
pub open spec fn range_error(start: Option<u64>, end: Option<u64>) -> Option<Seq<char>> {
    if start matches Some(s) && s < 1 {
        Some("start_line must be >= 1 (1-indexed)"@)
    } else if start matches Some(s) && end matches Some(e) && s > e {
        Some("start_line must be <= end_line"@)
    } else {
        None
    }
}

/// The plan for a call of tool `name` with the given arguments.
pub open spec fn plan_for(name: Seq<char>, a: ToolArgsView) -> PlanView {
    if name == "read_file"@ {
        if a.path is None {
            PlanView::Reply("Missing required parameter: path"@, true)
        } else if range_error(a.start_line, a.end_line) is Some {
            PlanView::Reply(range_error(a.start_line, a.end_line)->0, true)
        } else {
            PlanView::ReadFile(a.path->0, a.start_line, a.end_line)
        }
    } else if name == "write_file"@ {
        if a.path is None {
            PlanView::Reply("Missing required parameter: path"@, true)
        } else if a.content is None {
            PlanView::Reply("Missing required parameter: content"@, true)
        } else if range_error(a.start_line, a.end_line) is Some {
            PlanView::Reply(range_error(a.start_line, a.end_line)->0, true)
        } else if contains(a.path->0, ".."@) {
            PlanView::Reply("Path traversal detected: '..' is not allowed in file paths"@, true)
        } else {
            PlanView::WriteFile(a.path->0, a.content->0, a.start_line, a.end_line)
        }
    } else if name == "bash"@ {
        if a.command is None {
            PlanView::Reply("Missing required parameter: command"@, true)
        } else {
            let t: u64 = match a.timeout_ms { Some(t) => t, None => 30000 };
            PlanView::Bash(a.command->0, if t < 120000 { t } else { 120000 })
        }
    } else if name == "grep"@ {
        if a.pattern is None {
            PlanView::Reply("Missing required parameter: pattern"@, true)
        } else if a.path is None {
            PlanView::Reply("Missing required parameter: path"@, true)
        } else {
            PlanView::Grep(a.pattern->0, a.path->0)
        }
    } else if name == "ls"@ {
        PlanView::Ls(match a.path { Some(p) => p, None => "."@ })
    } else {
        PlanView::Reply("Unknown tool: "@ + name, true)
    }
}

/// The plan for a call whose arguments were parsed (or failed to parse).
pub open spec fn plan_for_parsed(name: Seq<char>, parsed: Result<ToolArgsView, Seq<char>>) -> PlanView {
    match parsed {
        Err(e) => PlanView::Reply("Invalid arguments JSON: "@ + e, true),
        Ok(a) => plan_for(name, a),
    }
}

/// A call of one of the offered tools is never answered as a call of an
/// unknown tool: its plan is that tool's work or one of that tool's own
/// argument errors.
pub proof fn known_tools_are_run(i: int, a: ToolArgsView)
    requires
        0 <= i < tool_catalog().len(),
    ensures
        plan_for(tool_catalog()[i].0, a) != PlanView::Reply("Unknown tool: "@ + tool_catalog()[i].0, true),
{
    reveal_strlit("Unknown tool: ");
    reveal_strlit("Missing required parameter: path");
    reveal_strlit("Missing required parameter: content");
    reveal_strlit("Missing required parameter: command");
    reveal_strlit("Missing required parameter: pattern");
    reveal_strlit("start_line must be >= 1 (1-indexed)");
    reveal_strlit("start_line must be <= end_line");
    reveal_strlit("Path traversal detected: '..' is not allowed in file paths");
    let n = tool_catalog()[i].0;
    let u = "Unknown tool: "@ + n;
    assert(u[0] == 'U');
    match plan_for(n, a) {
        PlanView::Reply(t, _) => {
            assert(t[0] != 'U');
        },
        _ => {},
    }
}

/// What a planned tool works on is what the call's arguments say: the path,
/// content, line range, command, pattern and timeout are taken as given
/// (the timeout defaulting to 30 s and capped at 120 s, the `ls` path
/// defaulting to `.`), never dropped or replaced.
pub proof fn plans_carry_arguments(name: Seq<char>, a: ToolArgsView)
    ensures
        plan_for(name, a) matches PlanView::ReadFile(p, s, e)
            ==> a.path == Some(p) && s == a.start_line && e == a.end_line,
        plan_for(name, a) matches PlanView::WriteFile(p, c, s, e)
            ==> a.path == Some(p) && a.content == Some(c) && s == a.start_line && e == a.end_line,
        plan_for(name, a) matches PlanView::Bash(c, t) ==> a.command == Some(c) && t == (match a.timeout_ms {
            Some(t) => if t < 120000 { t } else { 120000u64 },
            None => 30000u64,
        }),
        plan_for(name, a) matches PlanView::Grep(pt, p) ==> a.pattern == Some(pt) && a.path == Some(p),
        plan_for(name, a) matches PlanView::Ls(p) ==> (a.path matches Some(q) ==> p == q) && (a.path is None ==> p == "."@),
{
}

/// A `write_file` call whose path and content are given, whose line range
/// is valid and whose path has no `..` is planned as that write, with the
/// line range of the call: an edit of those lines when a bound is given.
pub proof fn valid_write_is_planned(a: ToolArgsView)
    requires
        a.path is Some,
        a.content is Some,
        range_ok(a.start_line, a.end_line),
        !contains(a.path->0, ".."@),
    ensures
        plan_for("write_file"@, a) == PlanView::WriteFile(a.path->0, a.content->0, a.start_line, a.end_line),
{
    reveal_strlit("write_file");
    reveal_strlit("read_file");
    assert("write_file"@ != "read_file"@) by { assert("write_file"@[0] != "read_file"@[0]); }
}

/// A call of `read_file`, `bash`, `grep` or `ls` whose required arguments
/// are given (and, for `read_file`, whose line range is valid) is planned
/// as that tool's work on those arguments.
pub proof fn valid_calls_are_planned(a: ToolArgsView)
    ensures
        a.path is Some && range_ok(a.start_line, a.end_line)
            ==> plan_for("read_file"@, a) == PlanView::ReadFile(a.path->0, a.start_line, a.end_line),
        a.command is Some ==> plan_for("bash"@, a) is Bash,
        a.pattern is Some && a.path is Some ==> plan_for("grep"@, a) == PlanView::Grep(a.pattern->0, a.path->0),
        plan_for("ls"@, a) is Ls,
{
    reveal_strlit("read_file");
    reveal_strlit("write_file");
    reveal_strlit("bash");
    reveal_strlit("grep");
    reveal_strlit("ls");
    assert("bash"@ != "read_file"@ && "bash"@ != "write_file"@) by {
        assert("bash"@[0] != "read_file"@[0] && "bash"@[0] != "write_file"@[0]);
    }
    assert("grep"@ != "read_file"@ && "grep"@ != "write_file"@ && "grep"@ != "bash"@) by {
        assert("grep"@[0] != "read_file"@[0] && "grep"@[0] != "write_file"@[0] && "grep"@[0] != "bash"@[0]);
    }
    assert("ls"@ != "read_file"@ && "ls"@ != "write_file"@ && "ls"@ != "bash"@ && "ls"@ != "grep"@) by {
        assert("ls"@[0] != "read_file"@[0] && "ls"@[0] != "write_file"@[0] && "ls"@[0] != "bash"@[0]
            && "ls"@[0] != "grep"@[0]);
    }
}

fn str_is(s: &str, lit: &str) -> (r: bool)
    ensures
        r == (s@ == lit@),
{
    let a = chars_of(s);
    let b = chars_of(lit);
    crate::api::chars_eq(a.as_slice(), b.as_slice())
}

fn reply(text: &str) -> (p: ToolPlan)
    ensures
        plan_view(p) == PlanView::Reply(text@, true),
{
    ToolPlan::Reply { text: text.to_owned(), is_error: true }
}

fn range_check(start: Option<u64>, end: Option<u64>) -> (r: Option<ToolPlan>)
    ensures
        match range_error(start, end) {
            Some(e) => r matches Some(p) && plan_view(p) == PlanView::Reply(e, true),
            None => r is None,
        },
{
    if let Some(s) = start {
        if s < 1 {
            return Some(reply("start_line must be >= 1 (1-indexed)"));
        }
        if let Some(e) = end {
            if s > e {
                return Some(reply("start_line must be <= end_line"));
            }
        }
    }
    None
}

/// The checks of `execute_tool` and of each tool on parsed arguments: the
/// plan for a call of `name`.
pub fn plan_for_args(name: &str, parsed: Result<ToolArgs, String>) -> (p: ToolPlan)
    ensures
        plan_view(p) == plan_for_parsed(name@, match parsed {
            Ok(a) => Ok::<ToolArgsView, Seq<char>>(args_view(a)),
            Err(e) => Err::<ToolArgsView, Seq<char>>(e@),
        }),
{
    let a = match parsed {
        Err(e) => {
            let mut text = "Invalid arguments JSON: ".to_owned();
            text.append(e.as_str());
            return ToolPlan::Reply { text, is_error: true };
        },
        Ok(a) => a,
    };
    if str_is(name, "read_file") {
        let path = match a.path {
            None => return reply("Missing required parameter: path"),
            Some(p) => p,
        };
        if let Some(p) = range_check(a.start_line, a.end_line) {
            return p;
        }
        ToolPlan::ReadFile { path, start_line: a.start_line, end_line: a.end_line }
    } else if str_is(name, "write_file") {
        let path = match a.path {
            None => return reply("Missing required parameter: path"),
            Some(p) => p,
        };
        let content = match a.content {
            None => return reply("Missing required parameter: content"),
            Some(c) => c,
        };
        if let Some(p) = range_check(a.start_line, a.end_line) {
            return p;
        }
        let pv = chars_of(path.as_str());
        let dots = chars_of("..");
        if contains_exec(pv.as_slice(), dots.as_slice()) {
            return reply("Path traversal detected: '..' is not allowed in file paths");
        }
        ToolPlan::WriteFile { path, content, start_line: a.start_line, end_line: a.end_line }
    } else if str_is(name, "bash") {
        let command = match a.command {
            None => return reply("Missing required parameter: command"),
            Some(c) => c,
        };
        let t: u64 = match a.timeout_ms {
            Some(t) => t,
            None => 30000,
        };
        ToolPlan::Bash { command, timeout_ms: if t < 120000 { t } else { 120000 } }
    } else if str_is(name, "grep") {
        let pattern = match a.pattern {
            None => return reply("Missing required parameter: pattern"),
            Some(p) => p,
        };
        let path = match a.path {
            None => return reply("Missing required parameter: path"),
            Some(p) => p,
        };
        ToolPlan::Grep { pattern, path }
    } else if str_is(name, "ls") {
        let path = match a.path {
            Some(p) => p,
            None => ".".to_owned(),
        };
        ToolPlan::Ls { path }
    } else {
        let mut text = "Unknown tool: ".to_owned();
        text.append(name);
        ToolPlan::Reply { text, is_error: true }
    }
}

/// `execute_tool`'s first step: parses the arguments of a call of `name`
/// and checks them, giving the work to do or the answer.
pub fn plan_tool_call(name: &str, arguments: &str) -> (p: ToolPlan)
    ensures
        plan_view(p) == plan_for_parsed(name@, json_tool_args(arguments@)),
{
    let parsed = parse_tool_args(arguments);
    plan_for_args(name, parsed)
}


// ---------------------------------------------------------------------------
// Line ranges of read_file and write_file
// ---------------------------------------------------------------------------

/// The line range of a call is one that passed `range_error`.
pub open spec fn range_ok(start: Option<u64>, end: Option<u64>) -> bool {
    range_error(start, end) is None
}

/// What `read_file` returns of a file's text for a line range: the whole
/// text without a range; otherwise lines `start..=end` (1-based, `start`
/// defaulting to the first line and `end` to the last, `end` clamped to the
/// last) joined with `\n`, or nothing when `start` lies beyond the end.
pub open spec fn read_range(content: Seq<char>, start: Option<u64>, end: Option<u64>) -> Seq<char> {
    if start is None && end is None {
        content
    } else {
        let ls = lines(content);
        let total = ls.len();
        let s: int = match start { Some(s) => s as int, None => 1 };
        let e0: int = match end { Some(e) => e as int, None => total as int };
        let e: int = if e0 < total { e0 } else { total as int };
        if s > total {
            Seq::empty()
        } else {
            join(ls.subrange(s - 1, e), "\n"@)
        }
    }
}

/// `read_file`'s selection of lines from the text it read.
pub fn select_lines(content: &str, start_line: Option<u64>, end_line: Option<u64>) -> (r: String)
    requires
        range_ok(start_line, end_line),
    ensures
        r@ == read_range(content@, start_line, end_line),
{
    if start_line.is_none() && end_line.is_none() {
        return content.to_owned();
    }
    let ls = lines_of(content);
    let total = ls.len();
    let s: u64 = match start_line {
        Some(s) => s,
        None => 1,
    };
    let e0: u64 = match end_line {
        Some(e) => e,
        None => total as u64,
    };
    let e: usize = if e0 < total as u64 { e0 as usize } else { total };
    if s > total as u64 {
        return String::new();
    }
    let sl = (s - 1) as usize;
    let part = slice_range_strings(ls.as_slice(), sl, e);
    let r = join_lines(part);
    proof {
        let lv = ls@.map_values(|x: String| x@);
        assert(part@.map_values(|x: String| x@) =~= lv.subrange(sl as int, e as int));
    }
    r
}

/// The strings `lo..hi` of a slice.
pub fn slice_range_strings(v: &[String], lo: usize, hi: usize) -> (r: &[String])
    requires
        lo <= hi <= v@.len(),
    ensures
        r@ == v@.subrange(lo as int, hi as int),
{
    let (left, _) = v.split_at(hi);
    let (_, mid) = left.split_at(lo);
    mid
}

/// The line range of an edit can be applied without the line arithmetic
/// going below zero: the last line to replace is at least the line before
/// the first.
pub open spec fn edit_range_ok(existing: Seq<char>, start: Option<u64>, end: Option<u64>) -> bool {
    let total = lines(existing).len();
    let s: int = match start { Some(s) => s as int, None => 1 };
    let e: int = match end { Some(e) => e as int, None => s };
    range_ok(start, end) && (s <= total ==> (if e < total { e } else { total as int }) >= s - 1)
}

/// What `write_file` makes of a file's text for a line-range edit: lines
/// `start..=end` (1-based; `start` defaults to 1, `end` to `start`, `end`
/// clamped to the last line) are replaced by the lines of `content` (none
/// when it is empty), and the lines are joined with `\n`. Starting more
/// than one line past the end is refused.
pub open spec fn edited(existing: Seq<char>, start: Option<u64>, end: Option<u64>, content: Seq<char>) -> Result<Seq<char>, Seq<char>> {
    let ls = lines(existing);
    let total = ls.len();
    let s: int = match start { Some(s) => s as int, None => 1 };
    let e: int = match end { Some(e) => e as int, None => s };
    if s > total + 1 {
        Err("start_line "@ + decimal(s as nat) + " exceeds file length "@ + decimal(total) + " + 1; cannot insert with a gap"@)
    } else if total == 0 && s > 1 {
        Err("Cannot edit non-existent file at line "@ + decimal(s as nat) + "; file does not exist yet (0 lines)"@)
    } else {
        Ok(join(spliced_lines(existing, start, end, content), "\n"@))
    }
}

/// The lines of the file after a line-range edit: the lines before the
/// range, the lines of the new content, the lines after the range.
pub open spec fn spliced_lines(existing: Seq<char>, start: Option<u64>, end: Option<u64>, content: Seq<char>) -> Seq<Seq<char>> {
    let ls = lines(existing);
    let total = ls.len();
    let s: int = match start { Some(s) => s as int, None => 1 };
    let e: int = match end { Some(e) => e as int, None => s };
    let rs = s - 1;
    let rc: int = if s > total { 0 } else { (if e < total { e } else { total as int }) - s + 1 };
    let new_lines: Seq<Seq<char>> = if content.len() == 0 { seq![] } else { lines(content) };
    ls.take(rs) + new_lines + ls.skip(rs + rc)
}

/// A line that joining with `\n` and splitting into lines leaves as it is:
/// it holds no line feed and does not end with a carriage return.
pub open spec fn clean_line(l: Seq<char>) -> bool {
    &&& forall|i: int| 0 <= i < l.len() ==> l[i] != '\n'
    &&& !(l.len() > 0 && l.last() == '\r')
}

/// Lines that come back unchanged from being joined with `\n` and split
/// again: each clean, the last not empty.
pub open spec fn splittable(ls: Seq<Seq<char>>) -> bool {
    &&& forall|i: int| 0 <= i < ls.len() ==> clean_line(#[trigger] ls[i])
    &&& (ls.len() > 0 ==> ls.last().len() > 0)
}

proof fn lemma_join_front(ls: Seq<Seq<char>>, sep: Seq<char>)
    requires
        ls.len() >= 2,
    ensures
        join(ls, sep) == ls[0] + sep + join(ls.drop_first(), sep),
    decreases ls.len(),
{
    if ls.len() == 2 {
        assert(ls.drop_last() =~= seq![ls[0]]);
        assert(ls.drop_first() =~= seq![ls[1]]);
        assert(join(ls.drop_last(), sep) == ls[0]);
        assert(join(ls.drop_first(), sep) == ls[1]);
    } else {
        let a = ls.drop_last();
        let b = ls.drop_first();
        lemma_join_front(a, sep);
        assert(a.drop_first() =~= b.drop_last());
        assert(b.last() == ls.last());
        assert(a[0] == ls[0]);
        assert(join(ls, sep) == join(a, sep) + sep + ls.last());
        assert(join(b, sep) == join(b.drop_last(), sep) + sep + b.last());
        assert(join(ls, sep) =~= ls[0] + sep + join(b, sep));
    }
}

/// Joining clean lines with `\n` and splitting the text into lines gives
/// the lines back.
pub proof fn lines_of_join(ls: Seq<Seq<char>>)
    requires
        splittable(ls),
    ensures
        lines(join(ls, "\n"@)) == ls,
    decreases ls.len(),
{
    reveal_strlit("\n");
    let p = class_pred(CharClass::Newline);
    if ls.len() == 0 {
    } else if ls.len() == 1 {
        let l = ls[0];
        assert(clean_line(ls[0]));
        lemma_scan(l, p, l.len() as int);
        assert(lines(l) =~= seq![l]);
    } else {
        let rest = ls.drop_first();
        assert forall|i: int| 0 <= i < rest.len() implies clean_line(#[trigger] rest[i]) by {
            assert(rest[i] == ls[i + 1]);
        }
        lines_of_join(rest);
        lemma_join_front(ls, "\n"@);
        let l = ls[0];
        assert(clean_line(ls[0]));
        let t = l + "\n"@ + join(rest, "\n"@);
        assert forall|k: int| 0 <= k < l.len() implies !p(#[trigger] t[k]) by {
            assert(t[k] == l[k]);
        }
        lemma_scan(t, p, l.len() as int);
        assert(t.take(l.len() as int) =~= l);
        assert(t.skip(l.len() + 1int) =~= join(rest, "\n"@));
        assert(lines(t) =~= seq![l] + rest);
        assert(seq![l] + rest =~= ls);
    }
}

/// Reading back the lines that a line-range edit put in gives the new
/// content's lines: when the edited file's lines come back unchanged from
/// being joined and split, the lines from the start line on, as many as the
/// content has, are the content's lines.
pub proof fn edit_then_read(existing: Seq<char>, start: Option<u64>, end: Option<u64>, content: Seq<char>)
    requires
        edit_range_ok(existing, start, end),
        edited(existing, start, end, content) is Ok,
        content.len() > 0,
        splittable(spliced_lines(existing, start, end, content)),
        (match start { Some(s) => s as int, None => 1int }) + lines(content).len() - 1 <= u64::MAX,
    ensures
        ({
            let s: int = match start { Some(s) => s as int, None => 1 };
            let last = (s + lines(content).len() - 1) as u64;
            read_range(edited(existing, start, end, content)->Ok_0, Some(s as u64), Some(last)) == join(lines(content), "\n"@)
        }),
{
    let m = spliced_lines(existing, start, end, content);
    lines_of_join(m);
    let ls = lines(existing);
    let total = ls.len();
    let s: int = match start { Some(s) => s as int, None => 1 };
    let e: int = match end { Some(e) => e as int, None => s };
    let rs = s - 1;
    let rc: int = if s > total { 0 } else { (if e < total { e } else { total as int }) - s + 1 };
    let nl = lines(content);
    lemma_lines_nonempty(content);
    assert(m == ls.take(rs) + nl + ls.skip(rs + rc));
    assert(m.subrange(rs, rs + nl.len()) =~= nl);
}

proof fn lemma_lines_nonempty(s: Seq<char>)
    requires
        s.len() > 0,
    ensures
        lines(s).len() > 0,
{
}

/// The lines `ls` with the `rc` lines from index `rs` replaced by `new_lines`.
fn splice_lines(ls: &Vec<String>, rs: usize, rc: usize, new_lines: &Vec<String>) -> (out: Vec<String>)
    requires
        rs + rc <= ls@.len(),
    ensures
        out@.map_values(|x: String| x@) == ls@.map_values(|x: String| x@).take(rs as int)
            + new_lines@.map_values(|x: String| x@) + ls@.map_values(|x: String| x@).skip((rs + rc) as int),
{
    let total = ls.len();
    let mut out: Vec<String> = Vec::new();
    let mut i: usize = 0;
    let ghost lv = ls@.map_values(|x: String| x@);
    let ghost nv = new_lines@.map_values(|x: String| x@);
    while i < rs
        invariant
            i <= rs <= total,
            total == ls@.len(),
            out@.map_values(|x: String| x@) == lv.take(i as int),
            lv == ls@.map_values(|x: String| x@),
        decreases rs - i,
    {
        let ghost before = out@;
        out.push(ls[i].clone());
        proof {
            assert(out@.map_values(|x: String| x@) =~= before.map_values(|x: String| x@).push(lv[i as int]));
            assert(lv.take(i + 1) =~= lv.take(i as int).push(lv[i as int]));
        }
        i += 1;
    }
    let mut j: usize = 0;
    while j < new_lines.len()
        invariant
            j <= new_lines@.len(),
            out@.map_values(|x: String| x@) == lv.take(rs as int) + nv.take(j as int),
            nv == new_lines@.map_values(|x: String| x@),
        decreases new_lines@.len() - j,
    {
        let ghost before = out@;
        out.push(new_lines[j].clone());
        proof {
            assert(out@.map_values(|x: String| x@) =~= before.map_values(|x: String| x@).push(nv[j as int]));
            assert(lv.take(rs as int) + nv.take(j + 1) =~= (lv.take(rs as int) + nv.take(j as int)).push(nv[j as int]));
        }
        j += 1;
    }
    assert(nv.take(new_lines@.len() as int) =~= nv);
    let mut k: usize = rs + rc;
    assert(lv.skip((rs + rc) as int).take(0) =~= Seq::<Seq<char>>::empty());
    while k < total
        invariant
            rs + rc <= k <= total,
            total == ls@.len(),
            lv == ls@.map_values(|x: String| x@),
            out@.map_values(|x: String| x@) == lv.take(rs as int) + nv + lv.skip((rs + rc) as int).take(k - rs - rc),
        decreases total - k,
    {
        let ghost before = out@;
        out.push(ls[k].clone());
        proof {
            assert(out@.map_values(|x: String| x@) =~= before.map_values(|x: String| x@).push(lv[k as int]));
            assert(lv.take(rs as int) + nv + lv.skip((rs + rc) as int).take(k + 1 - rs - rc)
                =~= (lv.take(rs as int) + nv + lv.skip((rs + rc) as int).take(k - rs - rc)).push(lv[k as int]));
        }
        k += 1;
    }
    assert(lv.skip((rs + rc) as int).take(total - rs - rc) =~= lv.skip((rs + rc) as int));
    out
}

/// `write_file`'s line-range edit of a file's text.
pub fn edit_lines(existing: &str, start_line: Option<u64>, end_line: Option<u64>, content: &str) -> (r: Result<String, String>)
    requires
        edit_range_ok(existing@, start_line, end_line),
    ensures
        match edited(existing@, start_line, end_line, content@) {
            Ok(t) => r matches Ok(s) && s@ == t,
            Err(t) => r matches Err(s) && s@ == t,
        },
{
    let ls = lines_of(existing);
    let total = ls.len();
    let s: u64 = match start_line {
        Some(s) => s,
        None => 1,
    };
    let e: u64 = match end_line {
        Some(e) => e,
        None => s,
    };
    if s - 1 > total as u64 {
        let mut m = "start_line ".to_owned();
        m.append(decimal_string(s).as_str());
        m.append(" exceeds file length ");
        m.append(decimal_string(total as u64).as_str());
        m.append(" + 1; cannot insert with a gap");
        return Err(m);
    }
    if total == 0 && s > 1 {
        let mut m = "Cannot edit non-existent file at line ".to_owned();
        m.append(decimal_string(s).as_str());
        m.append("; file does not exist yet (0 lines)");
        return Err(m);
    }
    let rs: usize = (s - 1) as usize;
    let rc: usize = if s > total as u64 {
        0
    } else {
        let em: u64 = if e < total as u64 { e } else { total as u64 };
        (em - (s - 1)) as usize
    };
    let new_lines: Vec<String> = if content.is_empty() {
        Vec::new()
    } else {
        lines_of(content)
    };
    let out = splice_lines(&ls, rs, rc, &new_lines);
    proof {
        let nv = new_lines@.map_values(|x: String| x@);
        if content@.len() == 0 {
            assert(nv =~= Seq::<Seq<char>>::empty());
        }
    }
    Ok(join_lines(out.as_slice()))
}

/// Largest file that `read_file` reads, in bytes.
pub open spec fn max_read_size() -> nat {
    1048576
}

/// `read_file`'s answer for a file too large to read, or nothing when the
/// size is within the limit.
pub open spec fn read_size_error(len: nat) -> Option<Seq<char>> {
    if len > max_read_size() {
        Some("File is "@ + decimal(len) + " bytes, exceeds max read size of 1048576 bytes (1MB). Try reading a smaller portion."@)
    } else {
        None
    }
}

/// `read_file`'s check of the size of a file.
pub fn check_read_size(len: u64) -> (r: Option<String>)
    ensures
        match read_size_error(len as nat) {
            None => r is None,
            Some(t) => r matches Some(s) && s@ == t,
        },
{
    if len > 1048576 {
        let mut m = "File is ".to_owned();
        m.append(decimal_string(len).as_str());
        m.append(" bytes, exceeds max read size of 1048576 bytes (1MB). Try reading a smaller portion.");
        Some(m)
    } else {
        None
    }
}

/// `write_file`'s answer after writing a whole file.
pub open spec fn write_report(path: Seq<char>, bytes: nat) -> Seq<char> {
    "Successfully wrote "@ + decimal(bytes) + " bytes to "@ + path
}

/// `write_file`'s answer after writing a whole file of `bytes` bytes.
pub fn wrote_message(path: &str, bytes: u64) -> (r: String)
    ensures
        r@ == write_report(path@, bytes as nat),
{
    let mut m = "Successfully wrote ".to_owned();
    m.append(decimal_string(bytes).as_str());
    m.append(" bytes to ");
    m.append(path);
    m
}

/// `write_file`'s answer after a line-range edit: the start line (1 when
/// not given), the end line as given (the start line when not given), and
/// the bytes of the new text.
pub open spec fn edit_report(path: Seq<char>, start: Option<u64>, end: Option<u64>, bytes: nat) -> Seq<char> {
    let s: nat = match start { Some(s) => s as nat, None => 1 };
    let e: nat = match end { Some(e) => e as nat, None => s };
    "Successfully edited "@ + path + ": replaced lines "@ + decimal(s) + "-"@ + decimal(e) + " ("@ + decimal(bytes)
        + " bytes written)"@
}

/// `write_file`'s answer after a line-range edit that wrote `bytes` bytes.
pub fn edited_message(path: &str, start_line: Option<u64>, end_line: Option<u64>, bytes: u64) -> (r: String)
    ensures
        r@ == edit_report(path@, start_line, end_line, bytes as nat),
{
    let s: u64 = match start_line {
        Some(s) => s,
        None => 1,
    };
    let e: u64 = match end_line {
        Some(e) => e,
        None => s,
    };
    let mut m = "Successfully edited ".to_owned();
    m.append(path);
    m.append(": replaced lines ");
    m.append(decimal_string(s).as_str());
    m.append("-");
    m.append(decimal_string(e).as_str());
    m.append(" (");
    m.append(decimal_string(bytes).as_str());
    m.append(" bytes written)");
    m
}

// ---------------------------------------------------------------------------
// Output of the tools
// ---------------------------------------------------------------------------

/// What `bash` answers for a finished command: its standard output, then
/// `stderr:` and its error output on a line of their own when there is
/// any; `(no output)` when both are empty. It is an error when the command
/// failed.
pub open spec fn command_result(stdout: Seq<char>, stderr: Seq<char>) -> Seq<char> {
    let with_err = if stderr.len() == 0 {
        stdout
    } else if stdout.len() == 0 {
        "stderr:\n"@ + stderr
    } else {
        stdout + "\n"@ + "stderr:\n"@ + stderr
    };
    if with_err.len() == 0 { "(no output)"@ } else { with_err }
}

/// `bash`'s answer for a finished command.
pub fn command_output(stdout: &str, stderr: &str, success: bool) -> (r: (String, bool))
    ensures
        r.0@ == command_result(stdout@, stderr@),
        r.1 == !success,
{
    let mut result = String::new();
    if !stdout.is_empty() {
        result.append(stdout);
    }
    if !stderr.is_empty() {
        if !result.as_str().is_empty() {
            result.append("\n");
        }
        result.append("stderr:\n");
        result.append(stderr);
    }
    if result.as_str().is_empty() {
        result.append("(no output)");
    }
    (result, !success)
}

/// How a shell command ended: it finished with its output and status, or it
/// outlived its time limit and was killed.
pub enum CommandOutcome {
    Finished { stdout: String, stderr: String, success: bool },
    TimedOut,
}

/// `bash`'s answer for a command that outlived its limit of `ms`
/// milliseconds.
pub open spec fn timeout_report(ms: nat) -> Seq<char> {
    "Command timed out after "@ + decimal(ms) + "ms"@
}

/// `bash`'s answer for a command run with a limit of `timeout_ms`
/// milliseconds: for a finished command its output (an error when it
/// failed); for one that outlived the limit the note that it timed out, as
/// an error.
pub fn bash_answer(outcome: CommandOutcome, timeout_ms: u64) -> (r: (String, bool))
    ensures
        match outcome {
            CommandOutcome::Finished { stdout, stderr, success } => r.0@ == command_result(stdout@, stderr@) && r.1 == !success,
            CommandOutcome::TimedOut => r.0@ == timeout_report(timeout_ms as nat) && r.1,
        },
{
    match outcome {
        CommandOutcome::Finished { stdout, stderr, success } => command_output(stdout.as_str(), stderr.as_str(), success),
        CommandOutcome::TimedOut => {
            let mut m = "Command timed out after ".to_owned();
            m.append(decimal_string(timeout_ms).as_str());
            m.append("ms");
            (m, true)
        },
    }
}

/// At most how many bytes of search output are kept in full.
pub open spec fn grep_limit() -> nat {
    102400
}

/// Number of leading characters of `s` whose UTF-8 encoding fits in `n`
/// bytes.
pub open spec fn chars_within(s: Seq<char>, n: nat) -> nat
    decreases s.len(),
{
    if s.len() == 0 || char_width(s[0]) > n {
        0
    } else {
        1 + chars_within(s.drop_first(), (n - char_width(s[0])) as nat)
    }
}

/// The longest prefix of `s` that takes at most `n` bytes (it ends between
/// two characters).
pub open spec fn prefix_within(s: Seq<char>, n: nat) -> Seq<char> {
    s.take(chars_within(s, n) as int)
}

/// `prefix_within` is what its name says: it takes at most `n` bytes, and
/// one more character would take more.
pub proof fn prefix_within_is_longest(s: Seq<char>, n: nat)
    ensures
        chars_within(s, n) <= s.len(),
        byte_len(prefix_within(s, n)) <= n,
        chars_within(s, n) < s.len() ==> byte_len(s.take(chars_within(s, n) + 1int)) > n,
    decreases s.len(),
{
    assert(s.take(0) =~= Seq::<char>::empty());
    if s.len() > 0 {
        let w = char_width(s[0]);
        if w > n {
            lemma_take_front(s, 0);
            assert(s.drop_first().take(0) =~= Seq::<char>::empty());
        } else {
            let t = s.drop_first();
            let m = (n - w) as nat;
            prefix_within_is_longest(t, m);
            let k = chars_within(t, m);
            lemma_take_front(s, k as int);
            if k < t.len() {
                lemma_take_front(s, k + 1int);
            }
        }
    }
}

/// What `grep` answers: the error output, prefixed with the tool's label,
/// when there is any; otherwise the matches (or `No matches found.`); output
/// over 102400 bytes is cut to its longest prefix of at most 102400 bytes,
/// followed by a note with the full size. It is an error when the search
/// failed other than by finding nothing (exit code 1).
pub open spec fn search_result(label: Seq<char>, stdout: Seq<char>, stderr: Seq<char>) -> Seq<char> {
    if stderr.len() > 0 {
        label + " error: "@ + stderr
    } else if stdout.len() == 0 {
        "No matches found."@
    } else if byte_len(stdout) > grep_limit() {
        prefix_within(stdout, grep_limit()) + "\n... (truncated, "@ + decimal(byte_len(stdout)) + " bytes total)"@
    } else {
        stdout
    }
}

/// How many leading characters of `v` fit in `n` bytes.
fn count_chars_within(v: &[char], n: usize) -> (k: usize)
    ensures
        k == chars_within(v@, n as nat),
        k <= v@.len(),
{
    let mut k: usize = 0;
    let mut left: usize = n;
    assert(v@.skip(0) =~= v@);
    while k < v.len() && char_len_utf8(v[k]) <= left
        invariant
            k <= v@.len(),
            left <= n,
            chars_within(v@, n as nat) == k + chars_within(v@.skip(k as int), left as nat),
        decreases v@.len() - k,
    {
        let w = char_len_utf8(v[k]);
        proof {
            let t = v@.skip(k as int);
            assert(t[0] == v@[k as int]);
            assert(t.drop_first() =~= v@.skip(k + 1));
        }
        left = left - w;
        k = k + 1;
    }
    proof {
        let t = v@.skip(k as int);
        if k < v@.len() {
            assert(t[0] == v@[k as int]);
        } else {
            assert(t.len() == 0);
        }
    }
    k
}

/// `grep`'s answer for a finished search by the program `label`.
pub fn search_output(label: &str, stdout: &str, stderr: &str, success: bool, exit_code: Option<i32>) -> (r: (String, bool))
    ensures
        r.0@ == search_result(label@, stdout@, stderr@),
        r.1 == (stderr@.len() > 0 || (!success && exit_code != Some(1i32))),
{
    if !stderr.is_empty() {
        let mut m = label.to_owned();
        m.append(" error: ");
        m.append(stderr);
        return (m, true);
    }
    let result = if stdout.is_empty() {
        "No matches found.".to_owned()
    } else {
        let v = chars_of(stdout);
        if byte_len_exceeds(v.as_slice(), 0, v.len(), 102400) {
            assert(v@.subrange(0, v@.len() as int) =~= v@);
            let n = count_chars_within(v.as_slice(), 102400);
            let mut m = string_of(slice_range(v.as_slice(), 0, n));
            assert(v@.subrange(0, n as int) =~= v@.take(n as int));
            m.append("\n... (truncated, ");
            let total = str_byte_len(stdout);
            m.append(decimal_string(total as u64).as_str());
            m.append(" bytes total)");
            m
        } else {
            assert(v@.subrange(0, v@.len() as int) =~= v@);
            stdout.to_owned()
        }
    };
    let is_error = !success && exit_code != Some(1i32);
    (result, is_error)
}

/// `items` with `x` put after the entries that are not greater than it.
pub open spec fn insert_sorted(items: Seq<Seq<char>>, x: Seq<char>) -> Seq<Seq<char>>
    decreases items.len(),
{
    if items.len() == 0 {
        seq![x]
    } else if text_le(x, items[0]) && x != items[0] {
        seq![x] + items
    } else {
        seq![items[0]] + insert_sorted(items.drop_first(), x)
    }
}

/// Every entry is at most each entry after it.
pub open spec fn ascending(s: Seq<Seq<char>>) -> bool {
    forall|i: int, j: int| 0 <= i < j < s.len() ==> text_le(s[i], s[j])
}

proof fn lemma_text_le_refl(a: Seq<char>)
    ensures
        text_le(a, a),
    decreases a.len(),
{
    if a.len() > 0 {
        lemma_text_le_refl(a.drop_first());
    }
}

proof fn lemma_insert_sorted_bound(items: Seq<Seq<char>>, x: Seq<char>, h: Seq<char>)
    requires
        text_le(h, x),
        forall|j: int| 0 <= j < items.len() ==> text_le(h, #[trigger] items[j]),
    ensures
        forall|k: int| 0 <= k < insert_sorted(items, x).len() ==> text_le(h, #[trigger] insert_sorted(items, x)[k]),
    decreases items.len(),
{
    if items.len() > 0 && !(text_le(x, items[0]) && x != items[0]) {
        let rest = items.drop_first();
        assert forall|j: int| 0 <= j < rest.len() implies text_le(h, #[trigger] rest[j]) by {
            assert(rest[j] == items[j + 1]);
        }
        lemma_insert_sorted_bound(rest, x, h);
        let r = insert_sorted(rest, x);
        assert forall|k: int| 0 <= k < insert_sorted(items, x).len() implies text_le(h, #[trigger] insert_sorted(items, x)[k]) by {
            if k > 0 {
                assert(insert_sorted(items, x)[k] == r[k - 1]);
            }
        }
    }
}

proof fn lemma_insert_sorted(items: Seq<Seq<char>>, x: Seq<char>)
    requires
        ascending(items),
    ensures
        ascending(insert_sorted(items, x)),
        insert_sorted(items, x).to_multiset() == items.to_multiset().insert(x),
    decreases items.len(),
{
    broadcast use vstd::seq_lib::group_to_multiset_ensures;
    if items.len() == 0 {
        assert(insert_sorted(items, x) =~= Seq::<Seq<char>>::empty().push(x));
    } else if text_le(x, items[0]) && x != items[0] {
        let r = insert_sorted(items, x);
        assert forall|i: int, j: int| 0 <= i < j < r.len() implies text_le(r[i], r[j]) by {
            if i == 0 {
                if j == 1 {
                    assert(r[j] == items[0]);
                } else {
                    assert(text_le(items[0], items[j - 1]));
                    lemma_text_le_trans(x, items[0], items[j - 1]);
                    assert(r[j] == items[j - 1]);
                }
            } else {
                assert(r[i] == items[i - 1] && r[j] == items[j - 1]);
            }
        }
        vstd::seq_lib::lemma_multiset_commutative(seq![x], items);
        assert(seq![x].to_multiset() =~= Seq::<Seq<char>>::empty().push(x).to_multiset());
        assert(Seq::<Seq<char>>::empty().to_multiset() =~= vstd::multiset::Multiset::<Seq<char>>::empty());
        assert(r.to_multiset() =~= items.to_multiset().insert(x));
    } else {
        let h = items[0];
        let rest = items.drop_first();
        assert forall|i: int, j: int| 0 <= i < j < rest.len() implies text_le(rest[i], rest[j]) by {
            assert(rest[i] == items[i + 1] && rest[j] == items[j + 1]);
        }
        lemma_insert_sorted(rest, x);
        let ins = insert_sorted(rest, x);
        let r = insert_sorted(items, x);
        assert(r == seq![h] + ins);
        if x == h {
            lemma_text_le_refl(h);
        } else {
            lemma_text_le_total(x, h);
        }
        assert forall|j: int| 0 <= j < rest.len() implies text_le(h, #[trigger] rest[j]) by {
            assert(rest[j] == items[j + 1]);
        }
        lemma_insert_sorted_bound(rest, x, h);
        assert forall|i: int, j: int| 0 <= i < j < r.len() implies text_le(r[i], r[j]) by {
            if i == 0 {
                assert(r[j] == ins[j - 1]);
            } else {
                assert(r[i] == ins[i - 1] && r[j] == ins[j - 1]);
            }
        }
        vstd::seq_lib::lemma_multiset_commutative(seq![h], ins);
        vstd::seq_lib::lemma_multiset_commutative(seq![h], rest);
        assert(seq![h] + rest =~= items);
        assert(r.to_multiset() =~= items.to_multiset().insert(x));
    }
}

/// The listing order of `ls` is ascending and keeps every entry: the
/// sorted entries are the entries, each as often, in ascending order.
pub proof fn sorted_names_sorted(items: Seq<Seq<char>>)
    ensures
        ascending(sorted_names(items)),
        sorted_names(items).to_multiset() == items.to_multiset(),
    decreases items.len(),
{
    broadcast use vstd::seq_lib::group_to_multiset_ensures;
    if items.len() == 0 {
        assert(sorted_names(items) =~= items);
    } else {
        sorted_names_sorted(items.drop_last());
        lemma_insert_sorted(sorted_names(items.drop_last()), items.last());
        assert(items.drop_last().push(items.last()) =~= items);
    }
}

/// The entries in ascending order (`Vec::sort` on strings).
pub open spec fn sorted_names(items: Seq<Seq<char>>) -> Seq<Seq<char>>
    decreases items.len(),
{
    if items.len() == 0 {
        seq![]
    } else {
        insert_sorted(sorted_names(items.drop_last()), items.last())
    }
}

fn insert_sorted_position(sorted: &Vec<String>, x: &String) -> (k: usize)
    ensures
        k <= sorted@.len(),
        insert_sorted(sorted@.map_values(|s: String| s@), x@)
            == sorted@.map_values(|s: String| s@).take(k as int).push(x@) + sorted@.map_values(|s: String| s@).skip(k as int),
{
    let ghost sv = sorted@.map_values(|s: String| s@);
    let xv = chars_of(x.as_str());
    let mut k: usize = 0;
    assert(sv.skip(0) =~= sv);
    assert(sv.take(0) =~= Seq::<Seq<char>>::empty());
    while k < sorted.len()
        invariant
            k <= sorted@.len(),
            sv == sorted@.map_values(|s: String| s@),
            xv@ == x@,
            insert_sorted(sv, x@) == sv.take(k as int) + insert_sorted(sv.skip(k as int), x@),
        decreases sorted@.len() - k,
    {
        let kv = chars_of(sorted[k].as_str());
        let le = text_le_exec(xv.as_slice(), kv.as_slice());
        let eq = *x == sorted[k];
        let ghost rest = sv.skip(k as int);
        assert(rest[0] == sorted@[k as int]@);
        if le && !eq {
            assert(insert_sorted(rest, x@) == seq![x@] + rest);
            assert(sv.take(k as int) + (seq![x@] + rest) =~= sv.take(k as int).push(x@) + sv.skip(k as int));
            return k;
        }
        assert(rest.drop_first() =~= sv.skip(k + 1));
        assert(sv.take(k as int) + (seq![sv[k as int]] + insert_sorted(sv.skip(k + 1), x@))
            =~= sv.take(k + 1) + insert_sorted(sv.skip(k + 1), x@));
        k += 1;
    }
    assert(sv.skip(k as int) =~= Seq::<Seq<char>>::empty());
    assert(sv.take(k as int) + seq![x@] =~= sv.take(k as int).push(x@) + sv.skip(k as int));
    k
}

/// The entries in ascending order.
pub fn sort_names(items: Vec<String>) -> (r: Vec<String>)
    ensures
        r@.map_values(|s: String| s@) == sorted_names(items@.map_values(|s: String| s@)),
{
    let ghost orig = items@.map_values(|s: String| s@);
    let mut rest = items;
    let total = rest.len();
    let mut sorted: Vec<String> = Vec::new();
    let mut i: usize = 0;
    assert(orig.take(0) =~= Seq::<Seq<char>>::empty());
    while rest.len() > 0
        invariant
            total == orig.len(),
            i + rest@.len() == orig.len(),
            rest@.map_values(|s: String| s@) == orig.skip(i as int),
            sorted@.map_values(|s: String| s@) == sorted_names(orig.take(i as int)),
        decreases rest@.len(),
    {
        let ghost before_rest = rest@;
        let x = rest.remove(0);
        let k = insert_sorted_position(&sorted, &x);
        let ghost before = sorted@;
        sorted.insert(k, x);
        proof {
            assert(before_rest.map_values(|s: String| s@)[0] == x@);
            assert(orig.take(i + 1).drop_last() =~= orig.take(i as int));
            assert(orig.take(i + 1).last() == x@);
            assert(sorted@.map_values(|s: String| s@) =~= before.map_values(|s: String| s@).take(k as int).push(x@)
                + before.map_values(|s: String| s@).skip(k as int));
            assert(rest@ =~= before_rest.drop_first());
            assert(rest@.map_values(|s: String| s@) =~= before_rest.map_values(|s: String| s@).drop_first());
            assert(orig.skip(i + 1) =~= orig.skip(i as int).drop_first());
        }
        i += 1;
    }
    assert(orig.take(i as int) =~= orig);
    sorted
}

/// What `ls` answers for the entries of a directory (names, `/` after
/// directories, `@` after links): the entries in ascending order, one per
/// line, or a note that the directory is empty.
pub open spec fn listing(path: Seq<char>, items: Seq<Seq<char>>) -> Seq<char> {
    if items.len() == 0 {
        path + " (empty directory)"@
    } else {
        join(sorted_names(items), "\n"@)
    }
}

/// `ls`'s answer for the entries it read.
pub fn ls_listing(path: &str, items: Vec<String>) -> (r: (String, bool))
    ensures
        r.0@ == listing(path@, items@.map_values(|s: String| s@)),
        !r.1,
{
    if items.len() == 0 {
        let mut m = path.to_owned();
        m.append(" (empty directory)");
        return (m, false);
    }
    let ghost iv = items@.map_values(|s: String| s@);
    let sorted = sort_names(items);
    (join_lines(sorted.as_slice()), false)
}

} // verus!
