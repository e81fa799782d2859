//! The working directory shared by the file tools and the shell: a
//! directory change made by Bash is seen by Read, Write, Edit, Glob, Grep
//! and NotebookEdit.

use vstd::prelude::*;

use crate::file_service::{FileService, PathKey};
use crate::process::{ProcessOutcome, ProcessService};
use crate::schema::BashOutput;
use crate::task_manager::{completion_view, TaskCompletion};

verus! {

/// The file tools' and the shell's services, over one working directory.
pub struct Workspace {
    pub files: FileService,
    pub process: ProcessService,
}

impl Workspace {
    /// Both services are in the same working directory.
    pub open spec fn wf(&self) -> bool {
        self.files.dir() == self.process.dir()
    }

    /// The working directory.
    pub open spec fn dir(&self) -> Seq<char> {
        self.process.dir()
    }

    /// Both services over `dir`, nothing read yet.
    pub fn new(dir: String) -> (res: Self)
        ensures
            res.wf(),
            res.dir() == dir@,
            res.files.read_set() == Set::<PathKey>::empty(),
    {
        let files = FileService::new(dir.clone());
        let process = ProcessService::new(dir);
        Workspace { files, process }
    }

    /// Moves both services to `dir`.
    pub fn set_working_dir(&mut self, dir: String)
        ensures
            final(self).wf(),
            final(self).dir() == dir@,
            final(self).files.read_set() == old(self).files.read_set(),
    {
        self.files.set_working_dir(dir.clone());
        self.process.set_working_dir(dir);
    }

    /// After a foreground command: both services move to the directory it
    /// ended in, when it reported one, and the answer is the command's.
    pub fn finish_foreground(&mut self, outcome: ProcessOutcome) -> (res: BashOutput)
        requires
            old(self).wf(),
        ensures
            final(self).wf(),
            final(self).dir() == match outcome.final_working_dir {
                Some(p) => p@,
                None => old(self).dir(),
            },
            final(self).files.read_set() == old(self).files.read_set(),
            res.stdout == Some(outcome.stdout),
            res.stderr == Some(outcome.stderr),
            res.interrupted == Some(outcome.interrupted),
            res.background_task_id is None,
    {
        let output = self.process.finish_foreground(outcome);
        let dir = self.process.working_dir();
        self.files.set_working_dir(dir);
        output
    }

    /// After a background command: both services move to the directory it
    /// ended in, when it reported one, and the task's state is how it ended.
    pub fn finish_background(&mut self, outcome: Result<ProcessOutcome, String>) -> (res:
        TaskCompletion)
        requires
            old(self).wf(),
        ensures
            final(self).wf(),
            final(self).files.read_set() == old(self).files.read_set(),
            match outcome {
                Ok(o) => final(self).dir() == match o.final_working_dir {
                    Some(p) => p@,
                    None => old(self).dir(),
                } && completion_view(res) == (
                    if o.interrupted {
                        "stopped"@
                    } else {
                        "completed"@
                    },
                    o.stdout@,
                    o.stderr@,
                    o.interrupted,
                    true,
                ),
                Err(m) => final(self).dir() == old(self).dir() && completion_view(res) == (
                    "failed"@,
                    Seq::<char>::empty(),
                    m@,
                    false,
                    true,
                ),
            },
    {
        let completion = self.process.finish_background(outcome);
        let dir = self.process.working_dir();
        self.files.set_working_dir(dir);
        completion
    }
}

} // verus!
