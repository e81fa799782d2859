//! The tools the server offers: their names and descriptions.

use vstd::prelude::*;

verus! {

/// The description of the Bash tool.
pub const BASH_DESCRIPTION: &'static str = "Executes a given bash command and returns its output.";

/// The Bash tool.
pub struct BashTool;

impl BashTool {
    /// The tool's name.
    pub fn name() -> (res: &'static str)
        ensures
            res@ == "Bash"@,
    {
        "Bash"
    }

    /// The tool's description.
    pub fn description() -> (res: &'static str)
        ensures
            res@ == BASH_DESCRIPTION@,
    {
        BASH_DESCRIPTION
    }
}

/// The description of the Edit tool.
pub const EDIT_DESCRIPTION: &'static str = r#"Performs exact string replacements in files.

Usage:
- You must use your `Read` tool at least once in the conversation before editing. This tool will error if you attempt an edit without reading the file. 
- When editing text from `Read` output, match the exact file content you received, including indentation and whitespace.
- ALWAYS prefer editing existing files in the codebase. NEVER write new files unless explicitly required.
- Only use emojis if the user explicitly requests it. Avoid adding emojis to files unless asked.
- The edit will FAIL if `old_string` is not unique in the file. Either provide a larger string with more surrounding context to make it unique or use `replace_all` to change every instance of `old_string`.
- Use `replace_all` for replacing and renaming strings across the file. This parameter is useful if you want to rename a variable for instance."#;

/// The Edit tool.
pub struct EditTool;

impl EditTool {
    /// The tool's name.
    pub fn name() -> (res: &'static str)
        ensures
            res@ == "Edit"@,
    {
        "Edit"
    }

    /// The tool's description.
    pub fn description() -> (res: &'static str)
        ensures
            res@ == EDIT_DESCRIPTION@,
    {
        EDIT_DESCRIPTION
    }
}

/// The description of the Glob tool.
pub const GLOB_DESCRIPTION: &'static str = r#"- Fast file pattern matching tool that works with any codebase size
- Supports glob patterns like "**/*.js" or "src/**/*.ts"
- Returns matching file paths sorted by modification time
- Use this tool when you need to find files by name patterns
- You can call multiple tools in a single response. It is always better to speculatively perform multiple searches in parallel if they are potentially useful."#;

/// The Glob tool.
pub struct GlobTool;

impl GlobTool {
    /// The tool's name.
    pub fn name() -> (res: &'static str)
        ensures
            res@ == "Glob"@,
    {
        "Glob"
    }

    /// The tool's description.
    pub fn description() -> (res: &'static str)
        ensures
            res@ == GLOB_DESCRIPTION@,
    {
        GLOB_DESCRIPTION
    }
}

/// The description of the Grep tool.
pub const GREP_DESCRIPTION: &'static str = "Regex-based content search.";

/// The Grep tool.
pub struct GrepTool;

impl GrepTool {
    /// The tool's name.
    pub fn name() -> (res: &'static str)
        ensures
            res@ == "Grep"@,
    {
        "Grep"
    }

    /// The tool's description.
    pub fn description() -> (res: &'static str)
        ensures
            res@ == GREP_DESCRIPTION@,
    {
        GREP_DESCRIPTION
    }
}

/// The description of the TaskOutput tool.
pub const TASK_OUTPUT_DESCRIPTION: &'static str = "Retrieves output from a running or completed background task.";

/// The TaskOutput tool.
pub struct TaskOutputTool;

impl TaskOutputTool {
    /// The tool's name.
    pub fn name() -> (res: &'static str)
        ensures
            res@ == "TaskOutput"@,
    {
        "TaskOutput"
    }

    /// The tool's description.
    pub fn description() -> (res: &'static str)
        ensures
            res@ == TASK_OUTPUT_DESCRIPTION@,
    {
        TASK_OUTPUT_DESCRIPTION
    }
}

/// The description of the TaskStop tool.
pub const TASK_STOP_DESCRIPTION: &'static str = r#"
- Stops a running background shell task by its ID
- Takes a task_id parameter identifying the task to stop
- Returns a success or failure status
- Use this tool when you need to terminate a long-running shell task
"#;

/// The TaskStop tool.
pub struct TaskStopTool;

impl TaskStopTool {
    /// The tool's name.
    pub fn name() -> (res: &'static str)
        ensures
            res@ == "TaskStop"@,
    {
        "TaskStop"
    }

    /// The tool's description.
    pub fn description() -> (res: &'static str)
        ensures
            res@ == TASK_STOP_DESCRIPTION@,
    {
        TASK_STOP_DESCRIPTION
    }
}

/// The description of the Write tool.
pub const WRITE_DESCRIPTION: &'static str = r#"Writes a file to the local filesystem.

Usage:
- This tool will overwrite the existing file if there is one at the provided path.
- If this is an existing file, you MUST use the Read tool first to read the file's contents. This tool will fail if you did not read the file first.
- Prefer the Edit tool for modifying existing files — it only sends the diff. Only use this tool to create new files or for complete rewrites.
- NEVER create documentation files (*.md) or README files unless explicitly requested by the User.
- Only use emojis if the user explicitly requests it. Avoid writing emojis to files unless asked."#;

/// The Write tool.
pub struct WriteTool;

impl WriteTool {
    /// The tool's name.
    pub fn name() -> (res: &'static str)
        ensures
            res@ == "Write"@,
    {
        "Write"
    }

    /// The tool's description.
    pub fn description() -> (res: &'static str)
        ensures
            res@ == WRITE_DESCRIPTION@,
    {
        WRITE_DESCRIPTION
    }
}

/// The description of the Read tool.
pub const READ_DESCRIPTION: &'static str = r#"Reads a file from the local filesystem. You can access any file directly by using this tool.
Assume this tool is able to read all files on the machine. If the User provides a path to a file assume that path is valid. It is okay to read a file that does not exist; an error will be returned.

Usage:
- The file_path parameter must be an absolute path, not a relative path
- By default, it reads up to 2000 lines starting from the beginning of the file
- You can optionally specify a line offset and limit (especially handy for long files), but it's recommended to read the whole file by not providing these parameters
- This tool allows the assistant to read images (eg PNG, JPG, etc). When reading an image file the contents are presented visually as the assistant is a multimodal LLM.
- This tool can read PDF files (.pdf). For large PDFs (more than 10 pages), you MUST provide the pages parameter to read specific page ranges (e.g., pages: "1-5"). Reading a large PDF without the pages parameter will fail. Maximum 20 pages per request.
- This tool can read Jupyter notebooks (.ipynb files) and returns all cells with their outputs, combining code, text, and visualizations.
- This tool can only read files, not directories. To read a directory, use an ls command via the Bash tool.
- You can call multiple tools in a single response. It is always better to speculatively read multiple potentially useful files in parallel.
- You will regularly be asked to read screenshots. If the user provides a path to a screenshot, ALWAYS use this tool to view the file at the path. This tool will work with all temporary file paths.
- If you read a file that exists but has empty contents you will receive a system reminder warning in place of file contents."#;

/// The description of the NotebookEdit tool.
pub const NOTEBOOK_EDIT_DESCRIPTION: &'static str = r#"Edits a specific cell in a Jupyter notebook (.ipynb file). Jupyter notebooks are interactive documents that combine code, text, and visualizations, commonly used for data analysis and scientific computing. The notebook_path parameter must be an absolute path, not a relative path. Target a cell with either cell_id or the 0-indexed cell_number. If both are provided, they must refer to the same cell, or the same insertion point when edit_mode=insert. Use edit_mode=insert to add a new cell at the specified index or after the specified cell_id. Use edit_mode=delete to delete the specified cell."#;

/// The names of all tools, in the order they are registered.
pub fn tool_names() -> (res: Vec<&'static str>)
    ensures
        res@.len() == 9,
        res@[0]@ == "Bash"@,
        res@[1]@ == "Read"@,
        res@[2]@ == "Write"@,
        res@[3]@ == "Edit"@,
        res@[4]@ == "Glob"@,
        res@[5]@ == "Grep"@,
        res@[6]@ == "NotebookEdit"@,
        res@[7]@ == "TaskOutput"@,
        res@[8]@ == "TaskStop"@,
{
    let mut v: Vec<&'static str> = Vec::new();
    v.push(BashTool::name());
    v.push("Read");
    v.push(WriteTool::name());
    v.push(EditTool::name());
    v.push(GlobTool::name());
    v.push(GrepTool::name());
    v.push("NotebookEdit");
    v.push(TaskOutputTool::name());
    v.push(TaskStopTool::name());
    v
}

/// How the server is reached.
#[derive(Debug, Clone, Copy, PartialEq, Eq, Structural)]
pub enum Transport {
    Stdio,
    Http,
}

} // verus!
