//! The rules of the line-oriented JSON-RPC server: which lines are answered, with
//! what, and which tool a call names. Reading lines and turning JSON into values and
//! back happens outside this library.

use vstd::prelude::*;

use crate::text::{same_text, trim, trimmed};
use vstd::string::StrSliceExecFns;

verus! {

/// The error code for a line that is no JSON-RPC request.
pub const PARSE_ERROR: i32 = -32700;

/// The error code for a method that the server does not have.
pub const METHOD_NOT_FOUND: i32 = -32601;

/// The error code for parameters that do not fit the method.
pub const INVALID_PARAMS: i32 = -32602;

/// The protocol version that the server speaks.
pub const PROTOCOL_VERSION: &'static str = "2024-11-05";

/// The name under which the server introduces itself.
pub const SERVER_NAME: &'static str = "fiq";

/// The id of a request.
#[derive(Debug, Clone, PartialEq, Eq)]
pub enum RequestId {
    /// A whole number.
    Number(i64),
    /// A text.
    Text(String),
    /// Any other value, as the JSON text that writes it.
    Other(String),
}

/// The tools that the server offers.
#[derive(Debug, Clone, Copy, PartialEq, Eq, Structural)]
pub enum Tool {
    ScanStats,
    FindDuplicates,
    SearchFiles,
    OrganizeFiles,
    BuildIndex,
}

/// The parameters of a request, as far as they were read.
#[derive(Debug)]
pub enum Params {
    /// The request has none.
    Missing,
    /// The request has parameters that name no tool call; the text says why.
    Invalid(String),
    /// The request calls the tool of this name.
    Call(String),
}

/// A line as it was read.
#[derive(Debug)]
pub enum Incoming {
    /// The line is no request; the text says why.
    Malformed(String),
    /// The line is a request. A request without an id is a notification.
    Request { id: Option<RequestId>, method: String, params: Params },
}

/// What a successful response carries.
#[derive(Debug, Clone, Copy, PartialEq, Eq, Structural)]
pub enum Answer {
    /// The protocol version, the capabilities and the server's name and version.
    Initialize,
    /// Nothing: the answer to a ping.
    Empty,
    /// The definitions of the tools.
    ToolList,
    /// The outcome of running a tool, which the caller has yet to run.
    ToolCall(Tool),
}

/// A response.
#[derive(Debug)]
pub enum Outgoing {
    Success { id: Option<RequestId>, answer: Answer },
    Failure { id: Option<RequestId>, code: i32, message: String },
}

/// The tool of a name.
pub open spec fn tool_named(name: Seq<char>) -> Option<Tool> {
    if name == "scan_stats"@ {
        Some(Tool::ScanStats)
    } else if name == "find_duplicates"@ {
        Some(Tool::FindDuplicates)
    } else if name == "search_files"@ {
        Some(Tool::SearchFiles)
    } else if name == "organize_files"@ {
        Some(Tool::OrganizeFiles)
    } else if name == "build_index"@ {
        Some(Tool::BuildIndex)
    } else {
        None
    }
}

/// Finds the tool that a call names, or the message for a name that is no tool.
pub fn handle_tool_call(name: &str) -> (tool: Result<Tool, String>)
    ensures
        match tool {
            Ok(t) => tool_named(name@) == Some(t),
            Err(message) => tool_named(name@).is_none() && message@ == "Unknown tool: "@ + name@,
        },
{
    if same_text(name, "scan_stats") {
        Ok(Tool::ScanStats)
    } else if same_text(name, "find_duplicates") {
        Ok(Tool::FindDuplicates)
    } else if same_text(name, "search_files") {
        Ok(Tool::SearchFiles)
    } else if same_text(name, "organize_files") {
        Ok(Tool::OrganizeFiles)
    } else if same_text(name, "build_index") {
        Ok(Tool::BuildIndex)
    } else {
        let mut message = "Unknown tool: ".to_owned();
        message.append(name);
        Err(message)
    }
}

/// What answers a request, apart from its id: an answer, or an error code with a
/// message.
pub enum Outcome {
    Answer(Answer),
    Error { code: i32, message: Seq<char> },
}

/// What answers a request with the given method and parameters.
pub open spec fn outcome_of(method: Seq<char>, params: Params) -> Outcome {
    if method == "initialize"@ {
        Outcome::Answer(Answer::Initialize)
    } else if method == "ping"@ {
        Outcome::Answer(Answer::Empty)
    } else if method == "tools/list"@ {
        Outcome::Answer(Answer::ToolList)
    } else if method == "tools/call"@ {
        match params {
            Params::Missing => Outcome::Error { code: INVALID_PARAMS, message: "Missing params"@ },
            Params::Invalid(why) => Outcome::Error {
                code: INVALID_PARAMS,
                message: "Invalid params: "@ + why@,
            },
            Params::Call(name) => match tool_named(name@) {
                Some(tool) => Outcome::Answer(Answer::ToolCall(tool)),
                None => Outcome::Error { code: INVALID_PARAMS, message: "Unknown tool: "@ + name@ },
            },
        }
    } else {
        Outcome::Error { code: METHOD_NOT_FOUND, message: "Method not found: "@ + method }
    }
}

/// Whether a response carries the outcome and the id.
pub open spec fn carries(response: Outgoing, id: Option<RequestId>, outcome: Outcome) -> bool {
    match outcome {
        Outcome::Answer(answer) => response matches Outgoing::Success { id: i, answer: a } && i == id
            && a == answer,
        Outcome::Error { code, message } => response matches Outgoing::Failure {
            id: i,
            code: c,
            message: m,
        } && i == id && c == code && m@ == message,
    }
}

/// Answers a request that has an id.
pub fn handle_request(id: Option<RequestId>, method: &str, params: &Params) -> (response: Outgoing)
    ensures
        carries(response, id, outcome_of(method@, *params)),
{
    if same_text(method, "initialize") {
        Outgoing::Success { id, answer: Answer::Initialize }
    } else if same_text(method, "ping") {
        Outgoing::Success { id, answer: Answer::Empty }
    } else if same_text(method, "tools/list") {
        Outgoing::Success { id, answer: Answer::ToolList }
    } else if same_text(method, "tools/call") {
        match params {
            Params::Missing => Outgoing::Failure {
                id,
                code: INVALID_PARAMS,
                message: "Missing params".to_owned(),
            },
            Params::Invalid(why) => {
                let mut message = "Invalid params: ".to_owned();
                message.append(why.as_str());
                Outgoing::Failure { id, code: INVALID_PARAMS, message }
            },
            Params::Call(name) => match handle_tool_call(name.as_str()) {
                Ok(tool) => Outgoing::Success { id, answer: Answer::ToolCall(tool) },
                Err(message) => Outgoing::Failure { id, code: INVALID_PARAMS, message },
            },
        }
    } else {
        let mut message = "Method not found: ".to_owned();
        message.append(method);
        Outgoing::Failure { id, code: METHOD_NOT_FOUND, message }
    }
}

/// The request text of a line: the line without surrounding whitespace, or `None`
/// for a line that holds nothing else.
pub fn request_text(line: &str) -> (text: Option<&str>)
    ensures
        match text {
            Some(t) => t@ == trimmed(line@) && t@.len() > 0,
            None => trimmed(line@).len() == 0,
        },
{
    let text = trim(line);
    if text.unicode_len() == 0 {
        None
    } else {
        Some(text)
    }
}

/// Decides the response to a line that was read. A malformed line is answered with
/// a parse error that carries no id. A request without an id is a notification and
/// gets no response. Every other request gets exactly one response, which carries
/// the request's id.
pub fn serve(incoming: Incoming) -> (response: Option<Outgoing>)
    ensures
        match incoming {
            Incoming::Malformed(why) => response matches Some(
                Outgoing::Failure { id, code, message },
            ) && id.is_none() && code == PARSE_ERROR && message@ == "Parse error: "@ + why@,
            Incoming::Request { id, method, params } => match id {
                None => response.is_none(),
                Some(_) => response.is_some() && carries(
                    response.unwrap(),
                    id,
                    outcome_of(method@, params),
                ),
            },
        },
{
    match incoming {
        Incoming::Malformed(why) => {
            let mut message = "Parse error: ".to_owned();
            message.append(why.as_str());
            Some(Outgoing::Failure { id: None, code: PARSE_ERROR, message })
        },
        Incoming::Request { id, method, params } => {
            if id.is_none() {
                None
            } else {
                Some(handle_request(id, method.as_str(), &params))
            }
        },
    }
}

/// The kind of value that a tool parameter takes.
#[derive(Debug, Clone, Copy, PartialEq, Eq, Structural)]
pub enum ParamKind {
    Text,
    Integer,
    Boolean,
}

/// The value that a tool parameter has where the call gives none.
#[derive(Debug, Clone, Copy)]
pub enum ParamDefault {
    Text(&'static str),
    Integer(u64),
    Boolean(bool),
}

/// One parameter of a tool.
#[derive(Debug)]
pub struct ParamDefinition {
    pub name: &'static str,
    pub kind: ParamKind,
    pub description: &'static str,
    pub default: Option<ParamDefault>,
    /// The values that the parameter accepts, where they are listed.
    pub choices: Vec<&'static str>,
    pub required: bool,
}

/// One tool as the server describes it.
#[derive(Debug)]
pub struct ToolDefinition {
    pub tool: Tool,
    pub name: &'static str,
    pub description: &'static str,
    pub params: Vec<ParamDefinition>,
}

fn param(
    name: &'static str,
    kind: ParamKind,
    description: &'static str,
    default: Option<ParamDefault>,
) -> (definition: ParamDefinition)
    ensures
        definition.name@ == name@,
        !definition.required,
{
    ParamDefinition { name, kind, description, default, choices: Vec::new(), required: false }
}

fn directory_param(description: &'static str) -> (definition: ParamDefinition)
    ensures
        definition.name@ == "directory"@,
        definition.required,
{
    ParamDefinition {
        name: "directory",
        kind: ParamKind::Text,
        description,
        default: None,
        choices: Vec::new(),
        required: true,
    }
}

fn choice_param(
    name: &'static str,
    description: &'static str,
    default: &'static str,
    first: &'static str,
    second: &'static str,
    third: &'static str,
) -> (definition: ParamDefinition)
    ensures
        definition.name@ == name@,
        !definition.required,
{
    let mut choices: Vec<&'static str> = Vec::new();
    choices.push(first);
    choices.push(second);
    choices.push(third);
    ParamDefinition {
        name,
        kind: ParamKind::Text,
        description,
        default: Some(ParamDefault::Text(default)),
        choices,
        required: false,
    }
}

/// The tools that the server offers: one for each of the four commands and one that
/// builds an index. Every tool is listed under the name that a call finds it by,
/// and every tool takes the directory to work on as its first parameter, which is
/// the only one that is required.
pub fn tool_definitions() -> (tools: Vec<ToolDefinition>)
    ensures
        tools@.len() == 5,
        forall|i: int|
            0 <= i < tools@.len() ==> tool_named((#[trigger] tools@[i]).name@) == Some(
                tools@[i].tool,
            ),
        tools@[0].tool == Tool::ScanStats,
        tools@[1].tool == Tool::FindDuplicates,
        tools@[2].tool == Tool::SearchFiles,
        tools@[3].tool == Tool::OrganizeFiles,
        tools@[4].tool == Tool::BuildIndex,
        forall|i: int|
            0 <= i < tools@.len() ==> (#[trigger] tools@[i]).params@.len() >= 1
                && tools@[i].params@[0].name@ == "directory"@ && tools@[i].params@[0].required,
        forall|i: int, j: int|
            0 <= i < tools@.len() && 1 <= j < tools@[i].params@.len() ==> !(
            #[trigger] tools@[i].params@[j]).required,
{
    let mut tools: Vec<ToolDefinition> = Vec::new();

    let mut stats: Vec<ParamDefinition> = Vec::new();
    stats.push(directory_param("Directory path to scan"));
    stats.push(
        param(
            "top_n",
            ParamKind::Integer,
            "Number of largest files to return",
            Some(ParamDefault::Integer(10)),
        ),
    );
    stats.push(
        param("recursive", ParamKind::Boolean, "Scan subdirectories", Some(ParamDefault::Boolean(true))),
    );
    tools.push(
        ToolDefinition {
            tool: Tool::ScanStats,
            name: "scan_stats",
            description: "Get file statistics for a directory: total files, total size, breakdown by extension, and largest files.",
            params: stats,
        },
    );

    let mut duplicates: Vec<ParamDefinition> = Vec::new();
    duplicates.push(directory_param("Directory path to scan"));
    duplicates.push(
        param(
            "min_size",
            ParamKind::Integer,
            "Minimum file size in bytes to consider",
            Some(ParamDefault::Integer(1)),
        ),
    );
    duplicates.push(
        param("recursive", ParamKind::Boolean, "Scan subdirectories", Some(ParamDefault::Boolean(true))),
    );
    tools.push(
        ToolDefinition {
            tool: Tool::FindDuplicates,
            name: "find_duplicates",
            description: "Find duplicate files by content hash (blake3). Groups files by size first, then hashes only potential duplicates for speed.",
            params: duplicates,
        },
    );

    let mut search: Vec<ParamDefinition> = Vec::new();
    search.push(directory_param("Directory path to search"));
    search.push(
        param(
            "name",
            ParamKind::Text,
            "Glob pattern for file names (e.g. '*.rs', '*.{js,ts}')",
            None,
        ),
    );
    search.push(
        param(
            "content",
            ParamKind::Text,
            "Search file contents for this string (case-insensitive)",
            None,
        ),
    );
    search.push(param("min_size", ParamKind::Text, "Minimum file size (e.g. '1KB', '10MB')", None));
    search.push(param("max_size", ParamKind::Text, "Maximum file size (e.g. '100MB', '1GB')", None));
    search.push(
        param(
            "newer",
            ParamKind::Text,
            "Files modified after this time (e.g. '2024-01-01', '7d', '24h')",
            None,
        ),
    );
    search.push(
        param(
            "older",
            ParamKind::Text,
            "Files modified before this time (e.g. '2024-01-01', '7d', '24h')",
            None,
        ),
    );
    search.push(
        param("recursive", ParamKind::Boolean, "Search subdirectories", Some(ParamDefault::Boolean(true))),
    );
    tools.push(
        ToolDefinition {
            tool: Tool::SearchFiles,
            name: "search_files",
            description: "Search for files by name pattern, content, size range, and date range. Filters are applied cheapest-first for speed.",
            params: search,
        },
    );

    let mut organize: Vec<ParamDefinition> = Vec::new();
    organize.push(directory_param("Directory to organize"));
    organize.push(
        choice_param(
            "by",
            "Organization strategy: 'type', 'date', or 'size'",
            "type",
            "type",
            "date",
            "size",
        ),
    );
    organize.push(
        param(
            "dry_run",
            ParamKind::Boolean,
            "Preview changes without moving files",
            Some(ParamDefault::Boolean(true)),
        ),
    );
    organize.push(
        choice_param(
            "mode",
            "Collision handling: 'skip', 'rename', or 'overwrite'",
            "rename",
            "skip",
            "rename",
            "overwrite",
        ),
    );
    organize.push(
        param("recursive", ParamKind::Boolean, "Process subdirectories", Some(ParamDefault::Boolean(true))),
    );
    organize.push(
        param("output", ParamKind::Text, "Output directory (default: organize in-place)", None),
    );
    tools.push(
        ToolDefinition {
            tool: Tool::OrganizeFiles,
            name: "organize_files",
            description: "Organize files into folders by type, date, or size. Supports dry-run mode to preview changes without moving files.",
            params: organize,
        },
    );

    let mut index: Vec<ParamDefinition> = Vec::new();
    index.push(directory_param("Directory to index"));
    tools.push(
        ToolDefinition {
            tool: Tool::BuildIndex,
            name: "build_index",
            description: "Build or rebuild the trigram index of file names for a directory, so that later name searches are answered from the index.",
            params: index,
        },
    );
    proof {
        reveal_strlit("scan_stats");
        reveal_strlit("find_duplicates");
        reveal_strlit("search_files");
        reveal_strlit("organize_files");
        reveal_strlit("build_index");
        assert("scan_stats"@.len() == 10);
        assert("find_duplicates"@.len() == 15);
        assert("search_files"@.len() == 12);
        assert("organize_files"@.len() == 14);
        assert("build_index"@.len() == 11);
        assert(tool_named(tools@[0].name@) == Some(Tool::ScanStats));
        assert(tool_named(tools@[1].name@) == Some(Tool::FindDuplicates));
        assert(tool_named(tools@[2].name@) == Some(Tool::SearchFiles));
        assert(tool_named(tools@[3].name@) == Some(Tool::OrganizeFiles));
        assert(tool_named(tools@[4].name@) == Some(Tool::BuildIndex));
    }
    tools
}

/// The arguments of a tool call as they were read: every argument that some tool
/// takes, `None` where the call does not give it or gives a value of another kind.
#[derive(Debug)]
pub struct Arguments {
    pub directory: Option<String>,
    pub top_n: Option<u64>,
    /// `min_size` read as a number, as the duplicate finder takes it.
    pub min_size_bytes: Option<u64>,
    pub recursive: Option<bool>,
    pub name: Option<String>,
    pub content: Option<String>,
    /// `min_size` read as a text, as the search takes it.
    pub min_size: Option<String>,
    pub max_size: Option<String>,
    pub newer: Option<String>,
    pub older: Option<String>,
    pub by: Option<String>,
    pub dry_run: Option<bool>,
    pub mode: Option<String>,
    pub output: Option<String>,
}

/// A tool call with every argument settled.
#[derive(Debug)]
#[allow(inconsistent_fields)]
pub enum ToolCall {
    ScanStats { directory: String, top_n: usize, recursive: bool },
    FindDuplicates { directory: String, min_size: u64, recursive: bool },
    SearchFiles {
        directory: String,
        name: Option<String>,
        content: Option<String>,
        min_size: Option<String>,
        max_size: Option<String>,
        newer: Option<String>,
        older: Option<String>,
        recursive: bool,
    },
    OrganizeFiles {
        directory: String,
        by: String,
        dry_run: bool,
        mode: String,
        recursive: bool,
        output: Option<String>,
    },
    BuildIndex { directory: String },
}

/// A count as a `usize`: the largest `usize` stands for every count beyond it.
pub open spec fn count_of(n: u64) -> usize {
    if n > usize::MAX {
        usize::MAX
    } else {
        n as usize
    }
}

/// The text of an optional string, or a default.
pub open spec fn text_or(value: Option<String>, default: Seq<char>) -> Seq<char> {
    match value {
        Some(text) => text@,
        None => default,
    }
}

/// The text of an optional string.
pub open spec fn text_of(value: Option<String>) -> Option<Seq<char>> {
    match value {
        Some(text) => Some(text@),
        None => None,
    }
}

/// Whether a settled call is what a tool makes of the arguments: every argument
/// that the call gives is taken, and the others get their defaults. Searches and
/// scans are recursive, ten files are listed, duplicates are at least one byte long,
/// and files are organized by type, renamed on collision and only in preview.
pub open spec fn settles(call: ToolCall, tool: Tool, given: Arguments) -> bool {
    &&& given.directory.is_some()
    &&& match call {
        ToolCall::ScanStats { directory, top_n, recursive } => {
            &&& tool == Tool::ScanStats
            &&& directory@ == given.directory.unwrap()@
            &&& top_n == count_of(given.top_n.unwrap_or(10))
            &&& recursive == given.recursive.unwrap_or(true)
        },
        ToolCall::FindDuplicates { directory, min_size, recursive } => {
            &&& tool == Tool::FindDuplicates
            &&& directory@ == given.directory.unwrap()@
            &&& min_size == given.min_size_bytes.unwrap_or(1)
            &&& recursive == given.recursive.unwrap_or(true)
        },
        ToolCall::SearchFiles {
            directory,
            name,
            content,
            min_size,
            max_size,
            newer,
            older,
            recursive,
        } => {
            &&& tool == Tool::SearchFiles
            &&& directory@ == given.directory.unwrap()@
            &&& text_of(name) == text_of(given.name)
            &&& text_of(content) == text_of(given.content)
            &&& text_of(min_size) == text_of(given.min_size)
            &&& text_of(max_size) == text_of(given.max_size)
            &&& text_of(newer) == text_of(given.newer)
            &&& text_of(older) == text_of(given.older)
            &&& recursive == given.recursive.unwrap_or(true)
        },
        ToolCall::OrganizeFiles { directory, by, dry_run, mode, recursive, output } => {
            &&& tool == Tool::OrganizeFiles
            &&& directory@ == given.directory.unwrap()@
            &&& by@ == text_or(given.by, "type"@)
            &&& dry_run == given.dry_run.unwrap_or(true)
            &&& mode@ == text_or(given.mode, "rename"@)
            &&& recursive == given.recursive.unwrap_or(true)
            &&& text_of(output) == text_of(given.output)
        },
        ToolCall::BuildIndex { directory } => {
            &&& tool == Tool::BuildIndex
            &&& directory@ == given.directory.unwrap()@
        },
    }
}

/// Settles the arguments of a tool call, or gives the message for a call without a
/// directory.
pub fn settle(tool: Tool, given: Arguments) -> (call: Result<ToolCall, String>)
    ensures
        match call {
            Ok(settled) => settles(settled, tool, given),
            Err(message) => given.directory.is_none() && message@
                == "Missing required parameter: directory"@,
        },
{
    let directory = match given.directory {
        Some(directory) => directory,
        None => {
            return Err("Missing required parameter: directory".to_owned());
        },
    };
    let recursive = match given.recursive {
        Some(recursive) => recursive,
        None => true,
    };
    match tool {
        Tool::ScanStats => {
            let wanted: u64 = match given.top_n {
                Some(n) => n,
                None => 10,
            };
            let top_n: usize = if wanted > usize::MAX as u64 {
                usize::MAX
            } else {
                wanted as usize
            };
            Ok(ToolCall::ScanStats { directory, top_n, recursive })
        },
        Tool::FindDuplicates => {
            let min_size: u64 = match given.min_size_bytes {
                Some(n) => n,
                None => 1,
            };
            Ok(ToolCall::FindDuplicates { directory, min_size, recursive })
        },
        Tool::SearchFiles => Ok(
            ToolCall::SearchFiles {
                directory,
                name: given.name,
                content: given.content,
                min_size: given.min_size,
                max_size: given.max_size,
                newer: given.newer,
                older: given.older,
                recursive,
            },
        ),
        Tool::OrganizeFiles => {
            let by: String = match given.by {
                Some(by) => by,
                None => "type".to_owned(),
            };
            let dry_run = match given.dry_run {
                Some(dry_run) => dry_run,
                None => true,
            };
            let mode: String = match given.mode {
                Some(mode) => mode,
                None => "rename".to_owned(),
            };
            Ok(
                ToolCall::OrganizeFiles {
                    directory,
                    by,
                    dry_run,
                    mode,
                    recursive,
                    output: given.output,
                },
            )
        },
        Tool::BuildIndex => Ok(ToolCall::BuildIndex { directory }),
    }
}

} // verus!
