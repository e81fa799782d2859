# litecode

The logic of LiteCode, a small coding-tools MCP server (Bash, Read, Write,
Edit, Glob, Grep, NotebookEdit, TaskOutput, TaskStop), written in Verus with
its behaviour stated in contracts and proved.

- `src/` is the verified library:
  - `text`, `order`, `paths`: character sequences, the order of names, paths
    as components;
  - `escapes`, `replace`: `\uXXXX` decoding and exact string replacement;
  - `file_service`: the working directory, the files read so far, and the
    decisions of Read, Write and Edit;
  - `pdf`: page ranges, page selection and the text of the pages;
  - `json`, `notebook`: JSON values and their indented form, how notebooks
    are shown and how their cells are replaced, inserted and deleted;
  - `grep`, `matchers`, `glob`: Grep's matchers, what a search found and
    the windowed output;
  - `process`, `task_manager`, `workspace`: how commands run, the directory
    they end in (shared with the file tools), and the background tasks;
  - `tools`, `schema`, `error`: tool names and descriptions, inputs and
    outputs, errors;
  - `laws`: properties that span several functions.
- `app/` is the server around the library: command line, transports, tool
  routing, file-system and process work, and serde/schemars copies of the
  schema types.
- `tests/` runs the library on concrete inputs.
