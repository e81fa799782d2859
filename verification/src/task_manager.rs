//! Background shell tasks: their ids, states and stop requests, and what
//! TaskOutput and TaskStop answer.

use vstd::prelude::*;

use crate::error::{is_invalid_input, LiteCodeError};
use crate::schema::{TaskOutputInput, TaskOutputResponse, TaskStopOutput};
use crate::text::{dec, decimal, push_str, str_eq};

verus! {

/// The state of a background task.
#[derive(Debug, Clone)]
pub struct TaskCompletion {
    pub status: String,
    pub stdout: String,
    pub stderr: String,
    pub interrupted: bool,
    pub completed: bool,
}

/// A task state as values: status, output, error output, whether it was
/// interrupted, whether it is over.
pub open spec fn completion_view(c: TaskCompletion) -> (Seq<char>, Seq<char>, Seq<char>, bool, bool) {
    (c.status@, c.stdout@, c.stderr@, c.interrupted, c.completed)
}

impl TaskCompletion {
    /// A task that is still running.
    pub fn running() -> (res: Self)
        ensures
            completion_view(res) == ("running"@, Seq::<char>::empty(), Seq::<char>::empty(), false, false),
    {
        TaskCompletion {
            status: "running".to_owned(),
            stdout: String::new(),
            stderr: String::new(),
            interrupted: false,
            completed: false,
        }
    }

    /// A task that could not be run to its end; `message` says why.
    pub fn failed(message: String) -> (res: Self)
        ensures
            completion_view(res) == ("failed"@, Seq::<char>::empty(), message@, false, true),
    {
        TaskCompletion {
            status: "failed".to_owned(),
            stdout: String::new(),
            stderr: message,
            interrupted: false,
            completed: true,
        }
    }

    /// A task whose command ended: `stopped` when it was interrupted,
    /// `completed` otherwise.
    pub fn finished(stdout: String, stderr: String, interrupted: bool) -> (res: Self)
        ensures
            completion_view(res) == (
                if interrupted {
                    "stopped"@
                } else {
                    "completed"@
                },
                stdout@,
                stderr@,
                interrupted,
                true,
            ),
    {
        TaskCompletion {
            status: if interrupted {
                "stopped".to_owned()
            } else {
                "completed".to_owned()
            },
            stdout,
            stderr,
            interrupted,
            completed: true,
        }
    }
}

/// The id of the `n`-th task registered (counting from 1).
pub open spec fn task_id(n: nat) -> Seq<char> {
    "task-"@ + dec(n)
}

/// The error for an id no task has.
pub open spec fn unknown_task_message(id: Seq<char>) -> Seq<char> {
    "Unknown task id "@ + id + "."@
}

/// The longest TaskOutput waits, in milliseconds.
pub const MAX_WAIT_MS: u64 = 600_000;

/// The background tasks: each registered task in order, its state, and
/// whether a stop request can still be sent to it.
#[derive(Debug)]
pub struct TaskManager {
    states: Vec<TaskCompletion>,
    stoppable: Vec<bool>,
}

impl TaskManager {
    /// The states of the tasks, the `k`-th having id `task_id(k + 1)`.
    pub closed spec fn states(&self) -> Seq<(Seq<char>, Seq<char>, Seq<char>, bool, bool)> {
        self.states@.map_values(|c: TaskCompletion| completion_view(c))
    }

    /// Whether a stop request can still be sent to each task.
    pub closed spec fn stoppable(&self) -> Seq<bool> {
        self.stoppable@
    }

    /// One state and one stop flag per task.
    pub closed spec fn wf(&self) -> bool {
        self.states.len() == self.stoppable.len()
    }

    /// No task yet.
    pub fn new() -> (res: Self)
        ensures
            res.wf(),
            res.states().len() == 0,
            res.stoppable().len() == 0,
    {
        TaskManager { states: Vec::new(), stoppable: Vec::new() }
    }

    /// A well-formed manager has one stop flag per task.
    pub proof fn lemma_wf(&self)
        requires
            self.wf(),
        ensures
            self.states().len() == self.stoppable().len(),
    {
    }

    /// The position of the task with id `id`.
    fn find(&self, id: &str) -> (res: Option<usize>)
        requires
            self.wf(),
        ensures
            res matches Some(k) ==> k < self.states().len() && task_id((k + 1) as nat) == id@
                && forall|j: int| 0 <= j < k ==> #[trigger] task_id((j + 1) as nat) != id@,
            res is None ==> forall|k: int|
                0 <= k < self.states().len() ==> #[trigger] task_id((k + 1) as nat) != id@,
    {
        let mut k: usize = 0;
        while k < self.states.len()
            invariant
                k <= self.states.len(),
                forall|j: int| 0 <= j < k ==> #[trigger] task_id((j + 1) as nat) != id@,
            decreases self.states.len() - k,
        {
            let mut name = String::new();
            push_str(&mut name, "task-");
            let n = decimal(k as u128 + 1);
            push_str(&mut name, n.as_str());
            if str_eq(name.as_str(), id) {
                return Some(k);
            }
            k = k + 1;
        }
        None
    }

    /// Registers a new running task and gives its id, `task-` and the
    /// number of tasks registered so far.
    pub fn register_shell_task(&mut self) -> (res: String)
        requires
            old(self).wf(),
        ensures
            final(self).wf(),
            res@ == task_id(final(self).states().len()),
            final(self).states() == old(self).states().push(
                ("running"@, Seq::<char>::empty(), Seq::<char>::empty(), false, false),
            ),
            final(self).stoppable() == old(self).stoppable().push(true),
    {
        let ghost s0 = self.states();
        self.states.push(TaskCompletion::running());
        self.stoppable.push(true);
        assert(self.states() =~= s0.push(
            ("running"@, Seq::<char>::empty(), Seq::<char>::empty(), false, false),
        ));
        let mut id = String::new();
        push_str(&mut id, "task-");
        let n = decimal(self.states.len() as u128);
        push_str(&mut id, n.as_str());
        id
    }

    /// Arms the stop request of task `id`.
    pub fn subscribe_stop(&mut self, id: &str) -> (res: Result<(), LiteCodeError>)
        requires
            old(self).wf(),
        ensures
            final(self).wf(),
            final(self).states() == old(self).states(),
            match task_index(old(self).states().len(), id@) {
                Some(k) => res is Ok && final(self).stoppable() == old(self).stoppable().update(k, true),
                None => res matches Err(e) && is_invalid_input(e, unknown_task_message(id@))
                    && final(self).stoppable() == old(self).stoppable(),
            },
    {
        match self.find(id) {
            Some(k) => {
                proof {
                    lemma_task_index(self.states().len(), id@, k as int);
                }
                self.stoppable.set(k, true);
                Ok(())
            },
            None => {
                proof {
                    lemma_task_index_none(self.states().len(), id@);
                }
                Err(unknown_task(id))
            },
        }
    }

    /// Records how task `id` ended; nothing happens for an unknown id.
    pub fn finish_task(&mut self, id: &str, completion: TaskCompletion)
        requires
            old(self).wf(),
        ensures
            final(self).wf(),
            final(self).stoppable() == old(self).stoppable(),
            match task_index(old(self).states().len(), id@) {
                Some(k) => final(self).states() == old(self).states().update(
                    k,
                    completion_view(completion),
                ),
                None => final(self).states() == old(self).states(),
            },
    {
        match self.find(id) {
            Some(k) => {
                proof {
                    lemma_task_index(self.states().len(), id@, k as int);
                }
                let ghost s0 = self.states();
                let ghost cv = completion_view(completion);
                self.states.set(k, completion);
                assert(self.states() =~= s0.update(k as int, cv));
            },
            None => {
                proof {
                    lemma_task_index_none(self.states().len(), id@);
                }
            },
        }
    }

    /// How long TaskOutput waits before answering: up to the timeout (at
    /// most `MAX_WAIT_MS`) when asked to block on a task still running;
    /// not at all otherwise.
    pub fn task_output_wait(&self, input: &TaskOutputInput) -> (res: Result<
        Option<u64>,
        LiteCodeError,
    >)
        requires
            self.wf(),
        ensures
            match task_index(self.states().len(), input.task_id@) {
                Some(k) => res matches Ok(w) && w == if input.block && !self.states()[k].4 {
                    Some(
                        if input.timeout < MAX_WAIT_MS {
                            input.timeout
                        } else {
                            MAX_WAIT_MS
                        },
                    )
                } else {
                    None
                },
                None => res matches Err(e) && is_invalid_input(
                    e,
                    unknown_task_message(input.task_id@),
                ),
            },
    {
        match self.find(input.task_id.as_str()) {
            Some(k) => {
                proof {
                    lemma_task_index(self.states().len(), input.task_id@, k as int);
                }
                if input.block && !self.states[k].completed {
                    Ok(
                        Some(
                            if input.timeout < MAX_WAIT_MS {
                                input.timeout
                            } else {
                                MAX_WAIT_MS
                            },
                        ),
                    )
                } else {
                    Ok(None)
                }
            },
            None => {
                proof {
                    lemma_task_index_none(self.states().len(), input.task_id@);
                }
                Err(unknown_task(input.task_id.as_str()))
            },
        }
    }

    /// What TaskOutput answers for task `id` now: its status and output.
    pub fn task_output(&self, id: &str) -> (res: Result<TaskOutputResponse, LiteCodeError>)
        requires
            self.wf(),
        ensures
            match task_index(self.states().len(), id@) {
                Some(k) => res matches Ok(r) && (r.status@, r.stdout@, r.stderr@) == (
                    self.states()[k].0,
                    self.states()[k].1,
                    self.states()[k].2,
                ),
                None => res matches Err(e) && is_invalid_input(e, unknown_task_message(id@)),
            },
    {
        match self.find(id) {
            Some(k) => {
                proof {
                    lemma_task_index(self.states().len(), id@, k as int);
                }
                let state = &self.states[k];
                Ok(
                    TaskOutputResponse {
                        status: state.status.clone(),
                        stdout: state.stdout.clone(),
                        stderr: state.stderr.clone(),
                    },
                )
            },
            None => {
                proof {
                    lemma_task_index_none(self.states().len(), id@);
                }
                Err(unknown_task(id))
            },
        }
    }

    /// What TaskStop does to task `id`: nothing to a task that is over
    /// ("Task already completed."); otherwise its stop request is used up,
    /// and the flag says whether one was there to send ("Stop signal
    /// sent." either way).
    pub fn stop_task(&mut self, id: &str) -> (res: Result<(TaskStopOutput, bool), LiteCodeError>)
        requires
            old(self).wf(),
        ensures
            final(self).wf(),
            final(self).states() == old(self).states(),
            match task_index(old(self).states().len(), id@) {
                Some(k) => if old(self).states()[k].4 {
                    res matches Ok((out, send)) && out.message@ == "Task already completed."@
                        && !send && final(self).stoppable() == old(self).stoppable()
                } else {
                    res matches Ok((out, send)) && out.message@ == "Stop signal sent."@ && send
                        == old(self).stoppable()[k] && final(self).stoppable() == old(
                        self,
                    ).stoppable().update(k, false)
                },
                None => res matches Err(e) && is_invalid_input(e, unknown_task_message(id@))
                    && final(self).stoppable() == old(self).stoppable(),
            },
    {
        match self.find(id) {
            Some(k) => {
                proof {
                    lemma_task_index(self.states().len(), id@, k as int);
                }
                if self.states[k].completed {
                    return Ok(
                        (TaskStopOutput { message: "Task already completed.".to_owned() }, false),
                    );
                }
                let send = self.stoppable[k];
                self.stoppable.set(k, false);
                Ok((TaskStopOutput { message: "Stop signal sent.".to_owned() }, send))
            },
            None => {
                proof {
                    lemma_task_index_none(self.states().len(), id@);
                }
                Err(unknown_task(id))
            },
        }
    }
}

/// The error for an unknown task id.
fn unknown_task(id: &str) -> (res: LiteCodeError)
    ensures
        is_invalid_input(res, unknown_task_message(id@)),
{
    let mut msg = String::new();
    push_str(&mut msg, "Unknown task id ");
    push_str(&mut msg, id);
    push_str(&mut msg, ".");
    LiteCodeError::invalid_input(msg)
}

/// The position of the first of `count` tasks whose id is `id`.
pub open spec fn task_index(count: nat, id: Seq<char>) -> Option<int>
    decreases count,
{
    if count == 0 {
        None
    } else {
        match task_index((count - 1) as nat, id) {
            Some(k) => Some(k),
            None => if task_id(count) == id {
                Some(count - 1)
            } else {
                None
            },
        }
    }
}

pub(crate) proof fn lemma_task_index(count: nat, id: Seq<char>, k: int)
    requires
        0 <= k < count,
        task_id((k + 1) as nat) == id,
        forall|j: int| 0 <= j < k ==> #[trigger] task_id((j + 1) as nat) != id,
    ensures
        task_index(count, id) == Some(k),
    decreases count,
{
    if count > k + 1 {
        lemma_task_index((count - 1) as nat, id, k);
    } else {
        lemma_task_index_none(k as nat, id);
    }
}

proof fn lemma_task_index_none(count: nat, id: Seq<char>)
    requires
        forall|j: int| 0 <= j < count ==> #[trigger] task_id((j + 1) as nat) != id,
    ensures
        task_index(count, id) is None,
    decreases count,
{
    if count > 0 {
        assert(task_id(((count - 1) + 1) as nat) != id);
        lemma_task_index_none((count - 1) as nat, id);
    }
}

/// The task a TaskStop names: `task_id`, else the older `shell_id`.
pub open spec fn stop_target(task_id_: Option<Seq<char>>, shell_id: Option<Seq<char>>) -> Option<Seq<char>> {
    match task_id_ {
        Some(t) => Some(t),
        None => shell_id,
    }
}

/// The error for a TaskStop that names no task.
pub open spec fn stop_target_missing_message() -> Seq<char> {
    "TaskStop requires task_id or shell_id."@
}

/// The task a TaskStop names, or the error when it names none.
pub fn resolve_stop_target(input: &crate::schema::TaskStopInput) -> (res: Result<
    String,
    LiteCodeError,
>)
    ensures
        match stop_target(
            match input.task_id {
                Some(t) => Some(t@),
                None => None,
            },
            match input.shell_id {
                Some(t) => Some(t@),
                None => None,
            },
        ) {
            Some(t) => res matches Ok(s) && s@ == t,
            None => res matches Err(e) && is_invalid_input(e, stop_target_missing_message()),
        },
{
    match &input.task_id {
        Some(t) => Ok(t.clone()),
        None => match &input.shell_id {
            Some(t) => Ok(t.clone()),
            None => Err(LiteCodeError::invalid_input("TaskStop requires task_id or shell_id.".to_owned())),
        },
    }
}

} // verus!
