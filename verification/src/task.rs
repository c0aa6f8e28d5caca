use vstd::prelude::*;

use crate::resource::{zero_amounts, Resource};

verus! {

/// The kinds of task a job is made of, with what each one needs.
#[derive(Debug, Clone, Copy, PartialEq, Eq, Structural)]
pub enum TaskNew {
    /// Needs no resource.
    ComputeTask,
    /// Needs the given amount of video memory.
    RenderTask(i32),
    /// Needs the given upload bandwidth.
    UploadTask(i32),
}

/// A unit of work: what it occupies while it runs, for how long it runs,
/// and, once it has been started, the time at which it was started.
#[derive(Debug, Clone)]
pub struct Task {
    pub resource: Resource,
    pub name: String,
    pub time_in: Option<usize>,
    pub time_span: usize,
}

/// The task has not been started.
pub open spec fn task_pending(task: Task) -> bool {
    task.time_in is None
}

/// The task was started at or before `time` and has not ended by `time`:
/// it runs on the half-open interval from its start to its start plus its span.
pub open spec fn task_running(task: Task, time: int) -> bool {
    &&& task.time_in is Some
    &&& task.time_in->0 <= time
    &&& time < task.time_in->0 + task.time_span
}

/// The task was started and is not running at `time`.
pub open spec fn task_finished(task: Task, time: int) -> bool {
    &&& task.time_in is Some
    &&& !task_running(task, time)
}

/// The time at which a started task stops running.
pub open spec fn task_end(task: Task) -> int {
    task.time_in->0 + task.time_span
}

/// Deciding whether the task runs at `time` needs its end only when it was
/// started at or before `time`; that end must then be a `usize`.
pub open spec fn end_representable_at(task: Task, time: int) -> bool {
    task.time_in is Some && task.time_in->0 <= time ==> task_end(task) <= usize::MAX
}

/// The task built by `Task::new` from a span and a kind.
pub open spec fn task_shape(task: Task, time_span: usize, kind: TaskNew) -> bool {
    &&& task.time_span == time_span
    &&& task.time_in is None
    &&& match kind {
        TaskNew::ComputeTask => {
            &&& task.name@ == "compute"@
            &&& task.resource@ == zero_amounts()
        },
        TaskNew::RenderTask(i) => {
            &&& task.name@ == "render"@
            &&& task.resource@ == (i as int, 0int, 0int)
        },
        TaskNew::UploadTask(i) => {
            &&& task.name@ == "upload"@
            &&& task.resource@ == (0int, 0int, i as int)
        },
    }
}

impl Task {
    /// A pending task of the given kind that runs for `time_span`.
    pub fn new(time_span: usize, x: TaskNew) -> (task: Task)
        ensures
            task_shape(task, time_span, x),
    {
        match x {
            TaskNew::ComputeTask => Task {
                name: "compute".to_string(),
                time_span,
                resource: Resource::zero(),
                time_in: None,
            },
            TaskNew::RenderTask(i) => Task {
                name: "render".to_string(),
                time_span,
                resource: Resource {
                    vram_gbytes: i,
                    network_download_gbps: 0,
                    network_upload_gbps: 0,
                },
                time_in: None,
            },
            TaskNew::UploadTask(i) => Task {
                name: "upload".to_string(),
                time_span,
                resource: Resource {
                    network_upload_gbps: i,
                    network_download_gbps: 0,
                    vram_gbytes: 0,
                },
                time_in: None,
            },
        }
    }

    /// Starts a pending task at `time`.
    pub fn run(&mut self, time: usize)
        requires
            task_pending(*old(self)),
        ensures
            *final(self) == (Task { time_in: Some(time), ..*old(self) }),
    {
        self.time_in = Some(time);
    }

    /// Whether the task runs at `time`.
    pub fn is_running(&self, time: usize) -> (b: bool)
        requires
            end_representable_at(*self, time as int),
        ensures
            b == task_running(*self, time as int),
    {
        match self.time_in {
            Some(v) => v <= time && time < v + self.time_span,
            None => false,
        }
    }

    /// Whether the task has not been started.
    pub fn is_pending(&self) -> (b: bool)
        ensures
            b == task_pending(*self),
    {
        self.time_in.is_none()
    }

    /// Whether the task was started and no longer runs at `time`.
    pub fn is_finished(&self, time: usize) -> (b: bool)
        requires
            end_representable_at(*self, time as int),
        ensures
            b == task_finished(*self, time as int),
    {
        self.time_in.is_some() && !self.is_running(time)
    }
}

/// At any time a task is in exactly one of three states: pending, running or finished.
pub proof fn lemma_task_states_partition(task: Task, time: int)
    ensures
        task_pending(task) || task_running(task, time) || task_finished(task, time),
        !(task_pending(task) && task_running(task, time)),
        !(task_pending(task) && task_finished(task, time)),
        !(task_running(task, time) && task_finished(task, time)),
{
}

/// A task that was started at `start` runs exactly on the times from `start`
/// up to, but not including, `start + time_span`, and is finished at every
/// other time.
pub proof fn lemma_started_task_lifetime(task: Task, start: usize, time: int)
    ensures
        task_running(Task { time_in: Some(start), ..task }, time) <==> (start <= time < start
            + task.time_span),
        task_finished(Task { time_in: Some(start), ..task }, time) <==> !(start <= time < start
            + task.time_span),
        !task_pending(Task { time_in: Some(start), ..task }),
{
}

} // verus!
