//! Inputs and outputs of the tools.

use vstd::prelude::*;

verus! {

/// Arguments of the Read tool.
#[derive(Debug, Clone, Default)]
pub struct ReadInput {
    /// The absolute path to the file to read.
    pub file_path: String,
    /// The line number to start reading from.
    pub offset: Option<usize>,
    /// The number of lines to read.
    pub limit: Option<usize>,
    /// Page range for PDF files (e.g. "1-5", "3", "10-20").
    pub pages: Option<String>,
}

/// Arguments of the Write tool.
#[derive(Debug, Clone, Default)]
pub struct WriteInput {
    /// The absolute path to the file to write.
    pub file_path: String,
    /// The content to write to the file.
    pub content: String,
    /// Decode `\uXXXX` escape sequences before writing.
    pub decode_unicode_escapes: bool,
}

/// Arguments of the Edit tool.
#[derive(Debug, Clone, Default)]
pub struct EditInput {
    /// The absolute path to the file to modify.
    pub file_path: String,
    /// The text to replace.
    pub old_string: String,
    /// The text to replace it with.
    pub new_string: String,
    /// Replace all occurrences of `old_string`.
    pub replace_all: bool,
    /// Decode `\uXXXX` escape sequences in `old_string` and `new_string`.
    pub decode_unicode_escapes: bool,
}

/// Arguments of the Glob tool.
#[derive(Debug, Clone, Default)]
pub struct GlobInput {
    /// The glob pattern to match files against.
    pub pattern: String,
    /// The directory to search in (the working directory when absent).
    pub path: Option<String>,
}

/// What the Grep tool reports.
#[derive(Debug, Clone, Copy, PartialEq, Eq, Structural)]
pub enum GrepOutputMode {
    Content,
    FilesWithMatches,
    Count,
}

impl Default for GrepOutputMode {
    fn default() -> (res: Self)
        ensures
            res == GrepOutputMode::FilesWithMatches,
    {
        GrepOutputMode::FilesWithMatches
    }
}

/// Arguments of the Grep tool.
#[derive(Debug, Clone, Default)]
pub struct GrepInput {
    /// The regular expression to search for.
    pub pattern: String,
    /// File or directory to search in.
    pub path: Option<String>,
    /// Glob pattern to filter files.
    pub glob: Option<String>,
    /// Output mode.
    pub output_mode: GrepOutputMode,
    /// Lines of context before each match (content mode).
    pub before: Option<usize>,
    /// Lines of context after each match (content mode).
    pub after: Option<usize>,
    /// Alias for `context`.
    pub context_alias: Option<usize>,
    /// Lines of context before and after each match (content mode).
    pub context: Option<usize>,
    /// Show line numbers (content mode, default true).
    pub line_numbers: Option<bool>,
    /// Case-insensitive search.
    pub case_insensitive: Option<bool>,
    /// File type to search.
    pub file_type: Option<String>,
    /// Limit output to the first N entries (0 is unlimited).
    pub head_limit: Option<usize>,
    /// Skip the first N entries.
    pub offset: Option<usize>,
    /// Let `.` match newlines and patterns span lines.
    pub multiline: bool,
}

/// Result of the Write tool.
#[derive(Debug, Clone)]
pub struct WriteOutput {
    /// Whether the write operation succeeded.
    pub success: bool,
    /// Summary of what was written.
    pub message: String,
}

/// Result of the Edit tool.
#[derive(Debug, Clone)]
pub struct EditOutput {
    /// Whether the edit operation succeeded.
    pub success: bool,
    /// Summary of what was edited.
    pub message: String,
}

/// Result of the Glob tool.
#[derive(Debug, Clone)]
pub struct GlobOutput {
    /// Total number of files found.
    pub num_files: usize,
    /// The matching file paths (at most one hundred).
    pub filenames: Vec<String>,
}

/// Result of the Grep tool.
#[derive(Debug, Clone)]
pub struct GrepOutput {
    /// Number of files in `filenames`.
    pub num_files: usize,
    /// File paths with matches.
    pub filenames: Vec<String>,
    /// Rendered lines or counts.
    pub content: Option<String>,
    /// Total number of matches found.
    pub num_matches: Option<usize>,
}

/// Arguments of the Bash tool.
#[derive(Debug, Clone, Default)]
pub struct BashInput {
    /// The command to execute.
    pub command: String,
    /// Optional timeout in milliseconds (max 600000).
    pub timeout: Option<u64>,
    /// What the command does, in a few words.
    pub description: Option<String>,
    /// Run the command in the background.
    pub run_in_background: Option<bool>,
}

/// Result of the Bash tool.
#[derive(Debug, Clone)]
pub struct BashOutput {
    /// The standard output of the command.
    pub stdout: Option<String>,
    /// The standard error output of the command.
    pub stderr: Option<String>,
    /// Whether the command was interrupted.
    pub interrupted: Option<bool>,
    /// ID of the background task if the command runs in the background.
    pub background_task_id: Option<String>,
}

/// Arguments of the TaskOutput tool.
#[derive(Debug, Clone, Default)]
pub struct TaskOutputInput {
    /// The task ID to get output from.
    pub task_id: String,
    /// Whether to wait for completion.
    pub block: bool,
    /// Max wait time in ms.
    pub timeout: u64,
}

/// Result of the TaskOutput tool.
#[derive(Debug, Clone)]
pub struct TaskOutputResponse {
    pub status: String,
    pub stdout: String,
    pub stderr: String,
}

/// Arguments of the TaskStop tool.
#[derive(Debug, Clone, Default)]
pub struct TaskStopInput {
    /// The ID of the background task to stop.
    pub task_id: Option<String>,
    /// Older name of `task_id`.
    pub shell_id: Option<String>,
}

/// Result of the TaskStop tool.
#[derive(Debug, Clone)]
pub struct TaskStopOutput {
    /// Status message about the operation.
    pub message: String,
}

/// The kind of a notebook cell.
#[derive(Debug, Clone, Copy, PartialEq, Eq, Structural)]
pub enum NotebookCellType {
    Code,
    Markdown,
}

/// What a NotebookEdit call does.
#[derive(Debug, Clone, Copy, PartialEq, Eq, Structural)]
pub enum NotebookEditMode {
    Replace,
    Insert,
    Delete,
}

impl Default for NotebookEditMode {
    fn default() -> (res: Self)
        ensures
            res == NotebookEditMode::Replace,
    {
        NotebookEditMode::Replace
    }
}

/// Arguments of the NotebookEdit tool.
#[derive(Debug, Clone, Default)]
pub struct NotebookEditInput {
    /// The absolute path to the notebook.
    pub notebook_path: String,
    /// The ID of the target cell.
    pub cell_id: Option<String>,
    /// The 0-indexed number of the target cell.
    pub cell_number: Option<usize>,
    /// The new source for the cell.
    pub new_source: String,
    /// The type of the cell (required in insert mode).
    pub cell_type: Option<NotebookCellType>,
    /// The type of edit to make.
    pub edit_mode: NotebookEditMode,
}

/// Result of the NotebookEdit tool.
#[derive(Debug, Clone)]
pub struct NotebookEditOutput {
    /// Whether the edit succeeded.
    pub success: bool,
    /// The ID of a newly inserted cell.
    pub cell_id: Option<String>,
}

/// The default of `TaskOutputInput::block`.
pub fn default_true() -> (res: bool)
    ensures
        res,
{
    true
}

/// The default of `TaskOutputInput::timeout`, in milliseconds.
pub fn default_task_timeout() -> (res: u64)
    ensures
        res == 30_000,
{
    30_000
}

} // verus!
