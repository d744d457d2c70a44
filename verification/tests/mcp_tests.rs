use fiq::mcp::{
    handle_request, handle_tool_call, request_text, serve, settle, tool_definitions, Answer,
    Arguments, Incoming, Outgoing, ParamKind, Params, RequestId, Tool, ToolCall, INVALID_PARAMS,
    METHOD_NOT_FOUND, PARSE_ERROR, PROTOCOL_VERSION, SERVER_NAME,
};

/// Reads a line the way the server's front end does.
fn read(line: &str) -> Option<Incoming> {
    let text = request_text(line)?;
    let value: serde_json::Value = match serde_json::from_str(text) {
        Ok(value) => value,
        Err(e) => return Some(Incoming::Malformed(e.to_string())),
    };
    let method = match value.get("method").and_then(|m| m.as_str()) {
        Some(method) => method.to_string(),
        None => return Some(Incoming::Malformed("missing field `method`".to_string())),
    };
    let id = match value.get("id") {
        None | Some(serde_json::Value::Null) => None,
        Some(serde_json::Value::String(s)) => Some(RequestId::Text(s.clone())),
        Some(other) => match other.as_i64() {
            Some(whole) => Some(RequestId::Number(whole)),
            None => Some(RequestId::Other(other.to_string())),
        },
    };
    let params = match value.get("params") {
        None => Params::Missing,
        Some(p) => match p.get("name").and_then(|n| n.as_str()) {
            Some(name) => Params::Call(name.to_string()),
            None => Params::Invalid("missing field `name`".to_string()),
        },
    };
    Some(Incoming::Request { id, method, params })
}

fn send_mcp_request(request: &str) -> Outgoing {
    let mut responses = send_mcp_requests(&[request]);
    assert_eq!(responses.len(), 1);
    responses.remove(0)
}

fn send_mcp_requests(requests: &[&str]) -> Vec<Outgoing> {
    requests.iter().filter_map(|line| read(line)).filter_map(serve).collect()
}

fn id_of(response: &Outgoing) -> Option<RequestId> {
    match response {
        Outgoing::Success { id, .. } => id.clone(),
        Outgoing::Failure { id, .. } => id.clone(),
    }
}

fn error_of(response: &Outgoing) -> (i32, String) {
    match response {
        Outgoing::Failure { code, message, .. } => (*code, message.clone()),
        Outgoing::Success { .. } => panic!("expected an error"),
    }
}

fn answer_of(response: &Outgoing) -> Answer {
    match response {
        Outgoing::Success { answer, .. } => *answer,
        Outgoing::Failure { .. } => panic!("expected a result"),
    }
}

#[test]
fn test_mcp_initialize() {
    let response = send_mcp_request(
        r#"{"jsonrpc":"2.0","id":1,"method":"initialize","params":{"protocolVersion":"2024-11-05","capabilities":{},"clientInfo":{"name":"test","version":"1.0"}}}"#,
    );
    assert_eq!(id_of(&response), Some(RequestId::Number(1)));
    assert_eq!(answer_of(&response), Answer::Initialize);
    assert!(SERVER_NAME == "fiq");
    assert_eq!(PROTOCOL_VERSION, "2024-11-05");
}

#[test]
fn test_mcp_ping() {
    let response = send_mcp_request(r#"{"jsonrpc":"2.0","id":2,"method":"ping"}"#);
    assert_eq!(id_of(&response), Some(RequestId::Number(2)));
    assert_eq!(answer_of(&response), Answer::Empty);
}

#[test]
fn test_mcp_tools_list() {
    let response = send_mcp_request(r#"{"jsonrpc":"2.0","id":3,"method":"tools/list"}"#);
    assert_eq!(id_of(&response), Some(RequestId::Number(3)));
    assert_eq!(answer_of(&response), Answer::ToolList);

    let tools = tool_definitions();
    let tool_names: Vec<&str> = tools.iter().map(|t| t.name).collect();
    assert!(tool_names.contains(&"scan_stats"));
    assert!(tool_names.contains(&"find_duplicates"));
    assert!(tool_names.contains(&"search_files"));
    assert!(tool_names.contains(&"organize_files"));
    assert!(tool_names.contains(&"build_index"));
}

#[test]
fn test_mcp_notification_no_response() {
    let responses = send_mcp_requests(&[
        r#"{"jsonrpc":"2.0","method":"notifications/initialized"}"#,
        r#"{"jsonrpc":"2.0","id":5,"method":"ping"}"#,
    ]);
    assert_eq!(responses.len(), 1);
    assert_eq!(id_of(&responses[0]), Some(RequestId::Number(5)));
}

#[test]
fn test_mcp_unknown_method() {
    let response = send_mcp_request(r#"{"jsonrpc":"2.0","id":6,"method":"nonexistent/method"}"#);
    let (code, message) = error_of(&response);
    assert_eq!(code, -32601);
    assert_eq!(message, "Method not found: nonexistent/method");
    assert_eq!(id_of(&response), Some(RequestId::Number(6)));
}

#[test]
fn test_mcp_unknown_tool() {
    let response = send_mcp_request(
        r#"{"jsonrpc":"2.0","id":7,"method":"tools/call","params":{"name":"nonexistent_tool","arguments":{}}}"#,
    );
    let (code, message) = error_of(&response);
    assert_eq!(code, -32602);
    assert!(message.contains("Unknown tool"));
    assert_eq!(message, "Unknown tool: nonexistent_tool");
}

#[test]
fn test_mcp_invalid_json() {
    let response = send_mcp_request("this is not json");
    let (code, message) = error_of(&response);
    assert_eq!(code, -32700);
    assert!(message.starts_with("Parse error: "));
    assert_eq!(id_of(&response), None);
}

#[test]
fn test_mcp_full_session() {
    let responses = send_mcp_requests(&[
        r#"{"jsonrpc":"2.0","id":1,"method":"initialize","params":{"protocolVersion":"2024-11-05","capabilities":{},"clientInfo":{"name":"test","version":"1.0"}}}"#,
        r#"{"jsonrpc":"2.0","method":"notifications/initialized"}"#,
        r#"{"jsonrpc":"2.0","id":2,"method":"tools/list"}"#,
        r#"{"jsonrpc":"2.0","id":3,"method":"tools/call","params":{"name":"scan_stats","arguments":{"directory":"/tmp"}}}"#,
    ]);
    assert_eq!(responses.len(), 3);
    assert_eq!(id_of(&responses[0]), Some(RequestId::Number(1)));
    assert_eq!(answer_of(&responses[0]), Answer::Initialize);
    assert_eq!(id_of(&responses[1]), Some(RequestId::Number(2)));
    assert_eq!(answer_of(&responses[1]), Answer::ToolList);
    assert_eq!(id_of(&responses[2]), Some(RequestId::Number(3)));
    assert_eq!(answer_of(&responses[2]), Answer::ToolCall(Tool::ScanStats));
}

#[test]
fn blank_lines_are_skipped() {
    assert!(request_text("").is_none());
    assert!(request_text("  \t ").is_none());
    assert_eq!(request_text("  {}\n"), Some("{}"));
    assert!(send_mcp_requests(&["", "   "]).is_empty());
}

#[test]
fn error_codes_are_those_of_json_rpc() {
    assert_eq!(PARSE_ERROR, -32700);
    assert_eq!(METHOD_NOT_FOUND, -32601);
    assert_eq!(INVALID_PARAMS, -32602);
}

#[test]
fn tool_calls_need_usable_params() {
    let id = Some(RequestId::Text("abc".to_string()));
    let missing = handle_request(id.clone(), "tools/call", &Params::Missing);
    assert_eq!(error_of(&missing), (-32602, "Missing params".to_string()));
    assert_eq!(id_of(&missing), id);
    let invalid = handle_request(id.clone(), "tools/call", &Params::Invalid("bad shape".to_string()));
    assert_eq!(error_of(&invalid), (-32602, "Invalid params: bad shape".to_string()));
    for (name, tool) in [
        ("scan_stats", Tool::ScanStats),
        ("find_duplicates", Tool::FindDuplicates),
        ("search_files", Tool::SearchFiles),
        ("organize_files", Tool::OrganizeFiles),
        ("build_index", Tool::BuildIndex),
    ] {
        assert_eq!(handle_tool_call(name), Ok(tool));
        let called = handle_request(id.clone(), "tools/call", &Params::Call(name.to_string()));
        assert_eq!(answer_of(&called), Answer::ToolCall(tool));
    }
    assert_eq!(handle_tool_call("Scan_Stats"), Err("Unknown tool: Scan_Stats".to_string()));
    // Methods other than a tool call do not look at the parameters.
    let ping = handle_request(id.clone(), "ping", &Params::Invalid("ignored".to_string()));
    assert_eq!(answer_of(&ping), Answer::Empty);
}

#[test]
fn tool_definitions_describe_every_tool() {
    let tools = tool_definitions();
    assert_eq!(tools.len(), 5);
    for tool in &tools {
        assert_eq!(handle_tool_call(tool.name), Ok(tool.tool));
        assert!(!tool.description.is_empty());
        assert_eq!(tool.params[0].name, "directory");
        assert!(tool.params[0].required);
        assert_eq!(tool.params[0].kind, ParamKind::Text);
        assert!(tool.params[1..].iter().all(|p| !p.required));
    }
    let organize = &tools[3];
    let by = organize.params.iter().find(|p| p.name == "by").unwrap();
    assert_eq!(by.choices, vec!["type", "date", "size"]);
    let search = &tools[2];
    assert_eq!(search.params.len(), 8);
}

fn no_arguments() -> Arguments {
    Arguments {
        directory: Some("/data".to_string()),
        top_n: None,
        min_size_bytes: None,
        recursive: None,
        name: None,
        content: None,
        min_size: None,
        max_size: None,
        newer: None,
        older: None,
        by: None,
        dry_run: None,
        mode: None,
        output: None,
    }
}

#[test]
fn arguments_get_their_defaults() {
    match settle(Tool::ScanStats, no_arguments()).unwrap() {
        ToolCall::ScanStats { directory, top_n, recursive } => {
            assert_eq!(directory, "/data");
            assert_eq!(top_n, 10);
            assert!(recursive);
        }
        _ => panic!("wrong call"),
    }
    match settle(Tool::FindDuplicates, no_arguments()).unwrap() {
        ToolCall::FindDuplicates { min_size, recursive, .. } => {
            assert_eq!(min_size, 1);
            assert!(recursive);
        }
        _ => panic!("wrong call"),
    }
    match settle(Tool::OrganizeFiles, no_arguments()).unwrap() {
        ToolCall::OrganizeFiles { by, dry_run, mode, recursive, output, .. } => {
            assert_eq!(by, "type");
            assert!(dry_run);
            assert_eq!(mode, "rename");
            assert!(recursive);
            assert_eq!(output, None);
        }
        _ => panic!("wrong call"),
    }
    match settle(Tool::SearchFiles, no_arguments()).unwrap() {
        ToolCall::SearchFiles { name, content, recursive, .. } => {
            assert_eq!(name, None);
            assert_eq!(content, None);
            assert!(recursive);
        }
        _ => panic!("wrong call"),
    }
    match settle(Tool::BuildIndex, no_arguments()).unwrap() {
        ToolCall::BuildIndex { directory } => assert_eq!(directory, "/data"),
        _ => panic!("wrong call"),
    }
}

#[test]
fn given_arguments_are_taken() {
    let mut given = no_arguments();
    given.top_n = Some(5);
    given.recursive = Some(false);
    match settle(Tool::ScanStats, given).unwrap() {
        ToolCall::ScanStats { top_n, recursive, .. } => {
            assert_eq!(top_n, 5);
            assert!(!recursive);
        }
        _ => panic!("wrong call"),
    }
    let mut given = no_arguments();
    given.by = Some("size".to_string());
    given.dry_run = Some(false);
    given.mode = Some("skip".to_string());
    given.output = Some("/out".to_string());
    match settle(Tool::OrganizeFiles, given).unwrap() {
        ToolCall::OrganizeFiles { by, dry_run, mode, output, .. } => {
            assert_eq!(by, "size");
            assert!(!dry_run);
            assert_eq!(mode, "skip");
            assert_eq!(output.as_deref(), Some("/out"));
        }
        _ => panic!("wrong call"),
    }
    let mut given = no_arguments();
    given.name = Some("*.rs".to_string());
    given.min_size = Some("1KB".to_string());
    given.min_size_bytes = Some(77);
    match settle(Tool::SearchFiles, given).unwrap() {
        ToolCall::SearchFiles { name, min_size, .. } => {
            assert_eq!(name.as_deref(), Some("*.rs"));
            assert_eq!(min_size.as_deref(), Some("1KB"));
        }
        _ => panic!("wrong call"),
    }
}

#[test]
fn a_call_without_directory_is_refused() {
    let mut given = no_arguments();
    given.directory = None;
    assert_eq!(
        settle(Tool::ScanStats, given).unwrap_err(),
        "Missing required parameter: directory"
    );
}

#[test]
fn tools_run_the_commands_of_the_same_purpose() {
    let mut given = no_arguments();
    given.top_n = Some(3);
    match fiq::cli::work_of(settle(Tool::ScanStats, given).unwrap()) {
        fiq::cli::Work::Command(fiq::cli::Commands::Stats { directory, top, recursive }) => {
            assert_eq!(directory, "/data");
            assert_eq!(top, 3);
            assert!(recursive);
        }
        _ => panic!("wrong work"),
    }
    match fiq::cli::work_of(settle(Tool::FindDuplicates, no_arguments()).unwrap()) {
        fiq::cli::Work::Command(fiq::cli::Commands::Duplicates { min_size, .. }) => {
            assert_eq!(min_size, 1)
        }
        _ => panic!("wrong work"),
    }
    match fiq::cli::work_of(settle(Tool::SearchFiles, no_arguments()).unwrap()) {
        fiq::cli::Work::Command(fiq::cli::Commands::Search { name, .. }) => assert_eq!(name, None),
        _ => panic!("wrong work"),
    }
    match fiq::cli::work_of(settle(Tool::OrganizeFiles, no_arguments()).unwrap()) {
        fiq::cli::Work::Command(fiq::cli::Commands::Organize { by, dry_run, .. }) => {
            assert_eq!(by, "type");
            assert!(dry_run);
        }
        _ => panic!("wrong work"),
    }
    match fiq::cli::work_of(settle(Tool::BuildIndex, no_arguments()).unwrap()) {
        fiq::cli::Work::BuildIndex(directory) => assert_eq!(directory, "/data"),
        _ => panic!("wrong work"),
    }
}

#[test]
fn an_invocation_without_command_exits_with_an_error() {
    let missing = fiq::cli::Cli { mcp: false, command: None }.invocation();
    assert!(matches!(missing, fiq::cli::Invocation::Missing));
    assert_eq!(fiq::cli::exit_code(&missing), 1);

    let serve = fiq::cli::Cli {
        mcp: true,
        command: Some(fiq::cli::Commands::Stats {
            directory: ".".to_string(),
            top: 10,
            recursive: true,
        }),
    }
    .invocation();
    assert!(matches!(serve, fiq::cli::Invocation::Serve));
    assert_eq!(fiq::cli::exit_code(&serve), 0);

    let run = fiq::cli::Cli {
        mcp: false,
        command: Some(fiq::cli::Commands::Duplicates {
            directory: "/d".to_string(),
            min_size: 1,
            recursive: true,
        }),
    }
    .invocation();
    assert_eq!(fiq::cli::exit_code(&run), 0);
    match run {
        fiq::cli::Invocation::Run(fiq::cli::Commands::Duplicates { directory, .. }) => {
            assert_eq!(directory, "/d")
        }
        _ => panic!("wrong invocation"),
    }
}

#[test]
fn every_kind_of_id_is_answered() {
    let text = send_mcp_request(r#"{"jsonrpc":"2.0","id":"abc","method":"ping"}"#);
    assert_eq!(id_of(&text), Some(RequestId::Text("abc".to_string())));
    let fraction = send_mcp_request(r#"{"jsonrpc":"2.0","id":1.5,"method":"ping"}"#);
    assert_eq!(id_of(&fraction), Some(RequestId::Other("1.5".to_string())));
    let null = send_mcp_requests(&[r#"{"jsonrpc":"2.0","id":null,"method":"ping"}"#]);
    assert!(null.is_empty());
}
