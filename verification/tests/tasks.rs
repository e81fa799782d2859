use litecode::process::{
    background_output, extract_working_dir, process_outcome, wrap_command, BashPlan,
    ProcessOutcome, ProcessService,
};
use litecode::schema::{BashInput, TaskOutputInput, TaskStopInput};
use litecode::task_manager::{resolve_stop_target, TaskCompletion, TaskManager};
use litecode::tools::{
    tool_names, BashTool, EditTool, GlobTool, GrepTool, TaskOutputTool, TaskStopTool, WriteTool,
    NOTEBOOK_EDIT_DESCRIPTION, READ_DESCRIPTION,
};

fn bash_input(command: &str, timeout: Option<u64>, background: Option<bool>) -> BashInput {
    BashInput {
        command: command.to_string(),
        timeout,
        description: None,
        run_in_background: background,
    }
}

fn output_input(id: &str, block: bool, timeout: u64) -> TaskOutputInput {
    TaskOutputInput { task_id: id.to_string(), block, timeout }
}

#[test]
fn bash_updates_working_directory() {
    let mut service = ProcessService::new("/work".to_string());
    let plan = service.bash(&bash_input("cd \"/work/nested\" && pwd", Some(5_000), Some(false))).unwrap();
    match plan {
        BashPlan::Foreground { command, timeout_ms } => {
            assert_eq!(timeout_ms, 5_000);
            assert!(command.starts_with("cd \"/work/nested\" && pwd; __litecode_status=$?;"));
        }
        other => panic!("expected a foreground plan, got {other:?}"),
    }
    let outcome = process_outcome(b"/work/nested\n\n__LITECODE_PWD__:/work/nested", b"", false);
    let output = service.finish_foreground(outcome);
    assert!(output.stdout.as_deref().unwrap().contains("/work/nested"));
    assert_eq!(output.stdout.as_deref(), Some("/work/nested"));
    assert_eq!(output.interrupted, Some(false));
    assert_eq!(output.background_task_id, None);
    assert_eq!(service.working_dir(), "/work/nested");
}

#[test]
fn bash_rejects_blank_commands_and_caps_timeouts() {
    let service = ProcessService::new("/work".to_string());
    let err = service.bash(&bash_input("  \n ", None, None)).unwrap_err();
    assert_eq!(err.message(), "Bash command cannot be empty.");
    match service.bash(&bash_input("ls", None, None)).unwrap() {
        BashPlan::Foreground { timeout_ms, .. } => assert_eq!(timeout_ms, 120_000),
        other => panic!("unexpected {other:?}"),
    }
    match service.bash(&bash_input("ls", Some(9_000_000), Some(true))).unwrap() {
        BashPlan::Background { timeout_ms, .. } => assert_eq!(timeout_ms, 600_000),
        other => panic!("unexpected {other:?}"),
    }
}

#[test]
fn wrapped_commands_report_their_directory() {
    assert_eq!(
        wrap_command("echo hi"),
        "echo hi; __litecode_status=$?; printf '\\n__LITECODE_PWD__:%s' \"$PWD\"; exit $__litecode_status"
    );
    let (out, dir) = extract_working_dir("a\n__LITECODE_PWD__:x\nb\n__LITECODE_PWD__: /tmp/d \n");
    assert_eq!(out, "a\n__LITECODE_PWD__:x\nb");
    assert_eq!(dir.as_deref(), Some("/tmp/d"));
    let (out, dir) = extract_working_dir("plain\n");
    assert_eq!(out, "plain\n");
    assert_eq!(dir, None);
    let (out, dir) = extract_working_dir("x\n\n__LITECODE_PWD__:   ");
    assert_eq!(out, "x");
    assert_eq!(dir, None);
    let lossy = process_outcome(b"\xffok", b"e\xff", true);
    assert_eq!(lossy.stdout, "\u{fffd}ok");
    assert_eq!(lossy.stderr, "e\u{fffd}");
    assert!(lossy.interrupted);
}

#[test]
fn background_task_can_be_polled() {
    let mut service = ProcessService::new("/work".to_string());
    let mut tasks = TaskManager::new();
    let plan = service.bash(&bash_input("sleep 1 && echo ready", Some(5_000), Some(true))).unwrap();
    assert!(matches!(plan, BashPlan::Background { timeout_ms: 5_000, .. }));
    let task_id = tasks.register_shell_task();
    assert_eq!(task_id, "task-1");
    tasks.subscribe_stop(&task_id).unwrap();
    let output = background_output(task_id.clone());
    assert_eq!(output.background_task_id.as_deref(), Some("task-1"));
    assert_eq!(output.stdout, None);

    assert_eq!(tasks.task_output_wait(&output_input(&task_id, true, 5_000)).unwrap(), Some(5_000));
    let running = tasks.task_output(&task_id).unwrap();
    assert_eq!(running.status, "running");

    let outcome = ProcessOutcome {
        stdout: "ready".to_string(),
        stderr: String::new(),
        interrupted: false,
        final_working_dir: Some("/work".to_string()),
    };
    let completion = service.finish_background(Ok(outcome));
    tasks.finish_task(&task_id, completion);
    assert_eq!(tasks.task_output_wait(&output_input(&task_id, true, 5_000)).unwrap(), None);
    let status = tasks.task_output(&task_id).unwrap();
    assert_eq!(status.status, "completed");
    assert!(status.stdout.contains("ready"));
}

#[test]
fn background_task_can_be_stopped() {
    let mut service = ProcessService::new("/work".to_string());
    let mut tasks = TaskManager::new();
    let task_id = tasks.register_shell_task();
    tasks.subscribe_stop(&task_id).unwrap();
    let (stop, send) = tasks.stop_task(&task_id).unwrap();
    assert_eq!(stop.message, "Stop signal sent.");
    assert!(send);
    let (again, send_again) = tasks.stop_task(&task_id).unwrap();
    assert_eq!(again.message, "Stop signal sent.");
    assert!(!send_again);
    let outcome = ProcessOutcome {
        stdout: String::new(),
        stderr: String::new(),
        interrupted: true,
        final_working_dir: None,
    };
    let completion = service.finish_background(Ok(outcome));
    tasks.finish_task(&task_id, completion);
    let status = tasks.task_output(&task_id).unwrap();
    assert_eq!(status.status, "stopped");
    let (done, send_done) = tasks.stop_task(&task_id).unwrap();
    assert_eq!(done.message, "Task already completed.");
    assert!(!send_done);
    assert_eq!(service.working_dir(), "/work");
}

#[test]
fn task_ids_count_up_and_unknown_ids_fail() {
    let mut tasks = TaskManager::new();
    assert_eq!(tasks.register_shell_task(), "task-1");
    assert_eq!(tasks.register_shell_task(), "task-2");
    let err = tasks.task_output("task-9").unwrap_err();
    assert_eq!(err.message(), "Unknown task id task-9.");
    assert!(tasks.stop_task("nope").is_err());
    assert!(tasks.subscribe_stop("task-3").is_err());
    assert_eq!(tasks.task_output_wait(&output_input("task-2", true, 900_000)).unwrap(), Some(600_000));
    assert_eq!(tasks.task_output_wait(&output_input("task-2", false, 10)).unwrap(), None);
    tasks.finish_task("task-7", TaskCompletion::failed("x".to_string()));
    assert_eq!(tasks.task_output("task-2").unwrap().status, "running");
}

#[test]
fn failed_and_running_completions() {
    let failed = TaskCompletion::failed("boom".to_string());
    assert_eq!(failed.status, "failed");
    assert_eq!(failed.stderr, "boom");
    assert!(failed.completed && !failed.interrupted);
    let running = TaskCompletion::running();
    assert_eq!(running.status, "running");
    assert!(!running.completed);
    let mut service = ProcessService::new("/w".to_string());
    let c = service.finish_background(Err("wait failed".to_string()));
    assert_eq!(c.status, "failed");
    assert_eq!(c.stderr, "wait failed");
}

#[test]
fn stop_targets_prefer_task_id() {
    let both = TaskStopInput { task_id: Some("task-1".to_string()), shell_id: Some("task-2".to_string()) };
    assert_eq!(resolve_stop_target(&both).unwrap(), "task-1");
    let shell = TaskStopInput { task_id: None, shell_id: Some("task-2".to_string()) };
    assert_eq!(resolve_stop_target(&shell).unwrap(), "task-2");
    let none = TaskStopInput { task_id: None, shell_id: None };
    assert_eq!(resolve_stop_target(&none).unwrap_err().message(), "TaskStop requires task_id or shell_id.");
}

#[test]
fn registers_all_required_tools() {
    let mut names: Vec<&str> = tool_names();
    names.sort();
    assert_eq!(
        names,
        vec!["Bash", "Edit", "Glob", "Grep", "NotebookEdit", "Read", "TaskOutput", "TaskStop", "Write"]
    );
}

#[test]
fn tool_names_and_descriptions() {
    assert_eq!(BashTool::name(), "Bash");
    assert_eq!(BashTool::description(), "Executes a given bash command and returns its output.");
    assert_eq!(EditTool::name(), "Edit");
    assert!(EditTool::description().starts_with("Performs exact string replacements in files."));
    assert_eq!(GlobTool::name(), "Glob");
    assert_eq!(GrepTool::name(), "Grep");
    assert_eq!(GrepTool::description(), "Regex-based content search.");
    assert_eq!(TaskOutputTool::name(), "TaskOutput");
    assert_eq!(TaskStopTool::name(), "TaskStop");
    assert!(TaskStopTool::description().starts_with("\n- Stops a running background shell task"));
    assert_eq!(WriteTool::name(), "Write");
    assert!(READ_DESCRIPTION.contains("Maximum 20 pages per request."));
    assert!(NOTEBOOK_EDIT_DESCRIPTION.starts_with("Edits a specific cell in a Jupyter notebook"));
}

#[test]
fn wrapped_output_gives_the_directory_back() {
    let printed = format!("{}\n__LITECODE_PWD__:{}", "line one\nline two\n\n", "/srv/app");
    let (out, dir) = extract_working_dir(&printed);
    assert_eq!(out, "line one\nline two");
    assert_eq!(dir.as_deref(), Some("/srv/app"));
}

#[test]
fn each_registered_id_finds_its_own_task() {
    let mut tasks = TaskManager::new();
    let ids: Vec<String> = (0..3).map(|_| tasks.register_shell_task()).collect();
    assert_eq!(ids, vec!["task-1", "task-2", "task-3"]);
    tasks.finish_task("task-2", TaskCompletion::finished("two".to_string(), String::new(), false));
    let second = tasks.task_output("task-2").unwrap();
    assert_eq!(second.status, "completed");
    assert_eq!(second.stdout, "two");
    let third = tasks.task_output("task-3").unwrap();
    assert_eq!(third.status, "running");
}

#[test]
fn a_directory_change_by_bash_reaches_the_file_tools() {
    let mut ws = litecode::workspace::Workspace::new("/work".to_string());
    let outcome = process_outcome(b"done\n\n__LITECODE_PWD__:/work/sub", b"", false);
    let out = ws.finish_foreground(outcome);
    assert_eq!(out.stdout.as_deref(), Some("done"));
    assert_eq!(ws.process.working_dir(), "/work/sub");
    assert_eq!(ws.files.working_dir(), "/work/sub");
    let done = ws.finish_background(Ok(process_outcome(b"\n__LITECODE_PWD__:/tmp", b"", false)));
    assert_eq!(done.status, "completed");
    assert_eq!(ws.files.working_dir(), "/tmp");
}
