//! The command-line surface: the four commands with their settings, and what an
//! invocation asks for.

use vstd::prelude::*;

use crate::mcp::ToolCall;

verus! {

/// The exit code of an invocation that names no command.
pub const EXIT_NO_COMMAND: i32 = 1;

/// A command with its settings.
#[derive(Debug)]
#[allow(inconsistent_fields)]
pub enum Commands {
    /// Show file statistics for a directory.
    Stats { directory: String, top: usize, recursive: bool },
    /// Find duplicate files by content.
    Duplicates { directory: String, min_size: u64, recursive: bool },
    /// Search for files by name, content, size or date.
    Search {
        directory: String,
        name: Option<String>,
        content: Option<String>,
        min_size: Option<String>,
        max_size: Option<String>,
        newer: Option<String>,
        older: Option<String>,
        recursive: bool,
    },
    /// Organize files into folders by type, date or size.
    Organize {
        directory: String,
        by: String,
        dry_run: bool,
        mode: String,
        recursive: bool,
        output: Option<String>,
    },
}

/// What the command line holds.
#[derive(Debug)]
pub struct Cli {
    /// Whether the program is to run as a server.
    pub mcp: bool,
    pub command: Option<Commands>,
}

/// What an invocation asks for.
#[derive(Debug)]
pub enum Invocation {
    /// Run the server.
    Serve,
    /// Run a command.
    Run(Commands),
    /// Nothing: there is neither the server flag nor a command.
    Missing,
}

impl Cli {
    /// Decides what the invocation asks for. The server flag goes before any
    /// command.
    pub fn invocation(self) -> (asked: Invocation)
        ensures
            self.mcp ==> asked is Serve,
            !self.mcp ==> match self.command {
                Some(command) => asked == Invocation::Run(command),
                None => asked is Missing,
            },
    {
        if self.mcp {
            Invocation::Serve
        } else {
            match self.command {
                Some(command) => Invocation::Run(command),
                None => Invocation::Missing,
            }
        }
    }
}

/// The exit code that an invocation ends with, whatever its command finds: 0, or
/// `EXIT_NO_COMMAND` where it names no command.
pub fn exit_code(asked: &Invocation) -> (code: i32)
    ensures
        code == if asked is Missing {
            EXIT_NO_COMMAND
        } else {
            0
        },
{
    match asked {
        Invocation::Missing => EXIT_NO_COMMAND,
        _ => 0,
    }
}

/// What a settled tool call runs: one of the four commands, or the building of an
/// index for a directory.
#[derive(Debug)]
pub enum Work {
    Command(Commands),
    BuildIndex(String),
}

/// Maps a settled tool call to what it runs. Every tool but the index builder runs
/// the command of the same purpose with the same settings.
pub fn work_of(call: ToolCall) -> (work: Work)
    ensures
        match call {
            ToolCall::ScanStats { directory, top_n, recursive } => work == Work::Command(
                Commands::Stats { directory, top: top_n, recursive },
            ),
            ToolCall::FindDuplicates { directory, min_size, recursive } => work == Work::Command(
                Commands::Duplicates { directory, min_size, recursive },
            ),
            ToolCall::SearchFiles {
                directory,
                name,
                content,
                min_size,
                max_size,
                newer,
                older,
                recursive,
            } => work == Work::Command(
                Commands::Search {
                    directory,
                    name,
                    content,
                    min_size,
                    max_size,
                    newer,
                    older,
                    recursive,
                },
            ),
            ToolCall::OrganizeFiles { directory, by, dry_run, mode, recursive, output } => work
                == Work::Command(
                Commands::Organize { directory, by, dry_run, mode, recursive, output },
            ),
            ToolCall::BuildIndex { directory } => work == Work::BuildIndex(directory),
        },
{
    match call {
        ToolCall::ScanStats { directory, top_n, recursive } => Work::Command(
            Commands::Stats { directory, top: top_n, recursive },
        ),
        ToolCall::FindDuplicates { directory, min_size, recursive } => Work::Command(
            Commands::Duplicates { directory, min_size, recursive },
        ),
        ToolCall::SearchFiles {
            directory,
            name,
            content,
            min_size,
            max_size,
            newer,
            older,
            recursive,
        } => Work::Command(
            Commands::Search {
                directory,
                name,
                content,
                min_size,
                max_size,
                newer,
                older,
                recursive,
            },
        ),
        ToolCall::OrganizeFiles { directory, by, dry_run, mode, recursive, output } => Work::Command(
            Commands::Organize { directory, by, dry_run, mode, recursive, output },
        ),
        ToolCall::BuildIndex { directory } => Work::BuildIndex(directory),
    }
}

} // verus!
