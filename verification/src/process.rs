//! The Bash tool's decisions: how a command is run and wrapped, how its
//! output reports the directory it ended in, and what the tool answers.

use vstd::prelude::*;

use crate::error::{is_invalid_input, LiteCodeError};
use crate::file_service::{decode_utf8_lossy, utf8_lossy};
use crate::schema::{BashInput, BashOutput};
use crate::task_manager::{completion_view, TaskCompletion};
use crate::text::{chars_of, last_occurrence, push_str, rfind, slice_chars, string_of, trim, trim_chars};

verus! {

/// The timeout of a command when none is given, in milliseconds.
pub const DEFAULT_TIMEOUT_MS: u64 = 120_000;

/// The longest timeout of a command, in milliseconds.
pub const MAX_TIMEOUT_MS: u64 = 600_000;

/// The marker before the directory a wrapped command prints at its end.
pub open spec fn pwd_marker() -> Seq<char> {
    "__LITECODE_PWD__:"@
}

/// A command wrapped so that it prints, after its own output, a newline,
/// the marker and the directory it ended in, and exits with its own status.
pub open spec fn wrapped(command: Seq<char>) -> Seq<char> {
    command + "; __litecode_status=$?; printf '\\n"@ + pwd_marker()
        + "%s' \"$PWD\"; exit $__litecode_status"@
}

/// Wraps a command (see `wrapped`).
pub fn wrap_command(command: &str) -> (res: String)
    ensures
        res@ == wrapped(command@),
{
    let mut out = String::new();
    push_str(&mut out, command);
    push_str(&mut out, "; __litecode_status=$?; printf '\\n");
    push_str(&mut out, "__LITECODE_PWD__:");
    push_str(&mut out, "%s' \"$PWD\"; exit $__litecode_status");
    out
}

/// `s` without the newlines at its end.
pub open spec fn trim_newlines_end(s: Seq<char>) -> Seq<char>
    decreases s.len(),
{
    if s.len() > 0 && s.last() == '\n' {
        trim_newlines_end(s.drop_last())
    } else {
        s
    }
}

/// The output of a wrapped command split at the last marker: the output
/// before it without its final newlines, and the directory after it
/// (trimmed) when that is not empty; output without a marker is kept whole.
pub open spec fn split_working_dir(stdout: Seq<char>) -> (Seq<char>, Option<Seq<char>>) {
    match last_occurrence(stdout, pwd_marker()) {
        Some(i) => {
            let path = trim(stdout.skip(i + pwd_marker().len()));
            (
                trim_newlines_end(stdout.take(i)),
                if path.len() > 0 {
                    Some(path)
                } else {
                    None
                },
            )
        },
        None => (stdout, None),
    }
}

/// Splits the output of a wrapped command (see `split_working_dir`).
pub fn extract_working_dir(stdout: &str) -> (res: (String, Option<String>))
    ensures
        (
            res.0@,
            match res.1 {
                Some(p) => Some(p@),
                None => None,
            },
        ) == split_working_dir(stdout@),
{
    let cs = chars_of(stdout);
    let marker = chars_of("__LITECODE_PWD__:");
    proof {
        reveal_strlit("__LITECODE_PWD__:");
    }
    match rfind(&cs, &marker) {
        None => (stdout.to_owned(), None),
        Some(i) => {
            let ml = marker.len();
            assert(crate::text::occurs_at(cs@, marker@, i as int));
            assert(i + ml <= cs.len());
            let start = i + ml;
            let rest = slice_chars(&cs, start, cs.len());
            let path = trim_chars(&rest);
            let mut end = i;
            while end > 0 && cs[end - 1] == '\n'
                invariant
                    end <= i <= cs.len(),
                    trim_newlines_end(cs@.take(i as int)) == trim_newlines_end(cs@.take(end as int)),
                decreases end,
            {
                assert(cs@.take(end as int).drop_last() =~= cs@.take(end - 1));
                end = end - 1;
            }
            let cleaned = string_of(&slice_chars(&cs, 0, end));
            assert(cs@.subrange(0, end as int) =~= cs@.take(end as int));
            assert(rest@ =~= cs@.skip(i + marker@.len()));
            let dir = if path.len() > 0 {
                Some(string_of(&path))
            } else {
                None
            };
            (cleaned, dir)
        },
    }
}

/// How a command ended, as the tool reports it.
#[derive(Debug)]
pub struct ProcessOutcome {
    pub stdout: String,
    pub stderr: String,
    pub interrupted: bool,
    pub final_working_dir: Option<String>,
}

/// How a command ended, from the bytes it wrote: both streams decoded
/// (invalid UTF-8 replaced), the directory split off its output.
pub fn process_outcome(stdout: &[u8], stderr: &[u8], interrupted: bool) -> (res: ProcessOutcome)
    ensures
        (
            res.stdout@,
            match res.final_working_dir {
                Some(p) => Some(p@),
                None => None,
            },
        ) == split_working_dir(utf8_lossy(stdout@)),
        res.stderr@ == utf8_lossy(stderr@),
        res.interrupted == interrupted,
{
    let out = decode_utf8_lossy(stdout);
    let err = decode_utf8_lossy(stderr);
    let (cleaned, dir) = extract_working_dir(out.as_str());
    ProcessOutcome { stdout: cleaned, stderr: err, interrupted, final_working_dir: dir }
}

/// How a command runs: in the foreground, or as a background task; the
/// command as wrapped, and its timeout.
#[derive(Debug)]
pub enum BashPlan {
    Foreground { command: String, timeout_ms: u64 },
    Background { command: String, timeout_ms: u64 },
}

/// The error for an empty command.
pub open spec fn empty_command_message() -> Seq<char> {
    "Bash command cannot be empty."@
}

/// The timeout of a command: the one given (the default otherwise), at
/// most the maximum.
pub open spec fn effective_timeout(timeout: Option<u64>) -> u64 {
    let t = match timeout {
        Some(t) => t,
        None => DEFAULT_TIMEOUT_MS,
    };
    if t < MAX_TIMEOUT_MS {
        t
    } else {
        MAX_TIMEOUT_MS
    }
}

/// The working directory commands start in, which they may change.
#[derive(Debug, Clone)]
pub struct ProcessService {
    working_dir: String,
}

impl ProcessService {
    /// The working directory.
    pub closed spec fn dir(&self) -> Seq<char> {
        self.working_dir@
    }

    /// A service over the given working directory.
    pub fn new(working_dir: String) -> (res: Self)
        ensures
            res.dir() == working_dir@,
    {
        ProcessService { working_dir }
    }

    /// The working directory.
    pub fn working_dir(&self) -> (res: String)
        ensures
            res@ == self.dir(),
    {
        self.working_dir.clone()
    }

    /// Changes the working directory.
    pub fn set_working_dir(&mut self, dir: String)
        ensures
            final(self).dir() == dir@,
    {
        self.working_dir = dir;
    }

    /// How a Bash call runs: an empty (or blank) command is refused;
    /// otherwise the wrapped command runs in the background when asked,
    /// in the foreground else, with the effective timeout.
    pub fn bash(&self, input: &BashInput) -> (res: Result<BashPlan, LiteCodeError>)
        ensures
            trim(input.command@).len() == 0 ==> (res matches Err(e) && is_invalid_input(
                e,
                empty_command_message(),
            )),
            trim(input.command@).len() > 0 ==> match res {
                Ok(BashPlan::Background { command, timeout_ms }) => input.run_in_background
                    == Some(true) && command@ == wrapped(input.command@) && timeout_ms
                    == effective_timeout(input.timeout),
                Ok(BashPlan::Foreground { command, timeout_ms }) => input.run_in_background
                    != Some(true) && command@ == wrapped(input.command@) && timeout_ms
                    == effective_timeout(input.timeout),
                Err(_) => false,
            },
    {
        let cs = chars_of(input.command.as_str());
        let trimmed = trim_chars(&cs);
        if trimmed.len() == 0 {
            return Err(LiteCodeError::invalid_input("Bash command cannot be empty.".to_owned()));
        }
        let t = match input.timeout {
            Some(t) => t,
            None => DEFAULT_TIMEOUT_MS,
        };
        let timeout_ms = if t < MAX_TIMEOUT_MS {
            t
        } else {
            MAX_TIMEOUT_MS
        };
        let command = wrap_command(input.command.as_str());
        match input.run_in_background {
            Some(true) => Ok(BashPlan::Background { command, timeout_ms }),
            _ => Ok(BashPlan::Foreground { command, timeout_ms }),
        }
    }

    /// What a foreground command answers, moving to the directory it ended
    /// in when it reported one.
    pub fn finish_foreground(&mut self, outcome: ProcessOutcome) -> (res: BashOutput)
        ensures
            final(self).dir() == match outcome.final_working_dir {
                Some(p) => p@,
                None => old(self).dir(),
            },
            res.stdout == Some(outcome.stdout),
            res.stderr == Some(outcome.stderr),
            res.interrupted == Some(outcome.interrupted),
            res.background_task_id is None,
    {
        let ProcessOutcome { stdout, stderr, interrupted, final_working_dir } = outcome;
        if let Some(dir) = final_working_dir {
            self.set_working_dir(dir);
        }
        BashOutput {
            stdout: Some(stdout),
            stderr: Some(stderr),
            interrupted: Some(interrupted),
            background_task_id: None,
        }
    }

    /// How a background command's task ends, moving to the directory it
    /// ended in when it reported one; a command that could not be waited
    /// for fails with the error's text.
    pub fn finish_background(&mut self, outcome: Result<ProcessOutcome, String>) -> (res:
        TaskCompletion)
        ensures
            match outcome {
                Ok(o) => final(self).dir() == match o.final_working_dir {
                    Some(p) => p@,
                    None => old(self).dir(),
                } && completion_view(res) == (
                    if o.interrupted {
                        "stopped"@
                    } else {
                        "completed"@
                    },
                    o.stdout@,
                    o.stderr@,
                    o.interrupted,
                    true,
                ),
                Err(m) => final(self).dir() == old(self).dir() && completion_view(res) == (
                    "failed"@,
                    Seq::<char>::empty(),
                    m@,
                    false,
                    true,
                ),
            },
    {
        match outcome {
            Ok(o) => {
                let ProcessOutcome { stdout, stderr, interrupted, final_working_dir } = o;
                if let Some(dir) = final_working_dir {
                    self.set_working_dir(dir);
                }
                TaskCompletion::finished(stdout, stderr, interrupted)
            },
            Err(m) => TaskCompletion::failed(m),
        }
    }
}

/// What Bash answers for a command started in the background.
pub fn background_output(task_id: String) -> (res: BashOutput)
    ensures
        res.stdout is None,
        res.stderr is None,
        res.interrupted is None,
        res.background_task_id == Some(task_id),
{
    BashOutput { stdout: None, stderr: None, interrupted: None, background_task_id: Some(task_id) }
}

} // verus!
