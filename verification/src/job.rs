use vstd::prelude::*;

use rand::rngs::StdRng;
use rand::Rng;
use rand::SeedableRng;

use crate::task::{task_shape, Task, TaskNew};

verus! {

/// rand's seeded standard generator, carried through opaquely.
#[verifier::external_type_specification]
#[verifier::external_body]
pub struct ExStdRng(StdRng);

/// Calls rand's `SeedableRng::seed_from_u64` for `StdRng`. Nothing is
/// stated of the generator: its stream is not modelled.
#[verifier::external_body]
fn std_rng_from_seed(seed: u64) -> StdRng {
    StdRng::seed_from_u64(seed)
}

/// Calls rand's `Rng::random_range` on `low..high` for `i32`. The crate's
/// source returns a value of the range and panics only when it is empty;
/// which value comes out depends on the generator and is not stated.
#[verifier::external_body]
fn random_i32_in(rng: &mut StdRng, low: i32, high: i32) -> (r: i32)
    requires
        low < high,
    ensures
        low <= r < high,
{
    rng.random_range(low..high)
}

/// Calls rand's `Rng::random_range` on `low..high` for `usize`. The crate's
/// source returns a value of the range and panics only when it is empty;
/// which value comes out depends on the generator and is not stated.
#[verifier::external_body]
fn random_usize_in(rng: &mut StdRng, low: usize, high: usize) -> (r: usize)
    requires
        low < high,
    ensures
        low <= r < high,
{
    rng.random_range(low..high)
}

/// A batch of tasks to schedule.
pub struct Job {
    pub tasks: Vec<Task>,
}

/// A task a job can be made of: a compute task that runs 10 to 49 time
/// units, a render task that runs 200 to 299 units and needs up to 9 GB of
/// video memory, or an upload task that runs 4 units and needs 1 or 2 Gbps
/// of upload bandwidth.
pub open spec fn generated_task(task: Task) -> bool {
    ||| {
        &&& task_shape(task, task.time_span, TaskNew::ComputeTask)
        &&& 10 <= task.time_span < 50
    }
    ||| {
        &&& task_shape(task, task.time_span, TaskNew::RenderTask(task.resource.vram_gbytes))
        &&& 0 <= task.resource.vram_gbytes < 10
        &&& 200 <= task.time_span < 300
    }
    ||| {
        &&& task_shape(task, task.time_span, TaskNew::UploadTask(task.resource.network_upload_gbps))
        &&& 1 <= task.resource.network_upload_gbps < 3
        &&& task.time_span == 4
    }
}

/// The range `low..high` that the span of a task of drawn kind `kind` is
/// drawn from: 1 is an upload task, 2 a render task, anything else a
/// compute task.
pub open spec fn span_bounds(kind: i32) -> (usize, usize) {
    if kind == 1 {
        (4, 5)
    } else if kind == 2 {
        (200, 300)
    } else {
        (10, 50)
    }
}

/// The range `low..high` that the need of a task of drawn kind `kind` is
/// drawn from; a compute task needs nothing, so draws none.
pub open spec fn amount_bounds(kind: i32) -> Option<(i32, i32)> {
    if kind == 1 {
        Some((1, 3))
    } else if kind == 2 {
        Some((0, 10))
    } else {
        None
    }
}

/// The span range for a task of drawn kind `kind`.
pub fn span_range(kind: i32) -> (r: (usize, usize))
    ensures
        r == span_bounds(kind),
{
    if kind == 1 {
        (4, 5)
    } else if kind == 2 {
        (200, 300)
    } else {
        (10, 50)
    }
}

/// The need range for a task of drawn kind `kind`, if it draws a need.
pub fn amount_range(kind: i32) -> (r: Option<(i32, i32)>)
    ensures
        r == amount_bounds(kind),
{
    if kind == 1 {
        Some((1, 3))
    } else if kind == 2 {
        Some((0, 10))
    } else {
        None
    }
}

/// The task made from drawn values: kind 1 gives an upload task needing
/// `amount` Gbps, kind 2 a render task needing `amount` GB of video memory,
/// any other kind a compute task; each runs for `span`.
pub fn task_for_draws(kind: i32, span: usize, amount: i32) -> (t: Task)
    ensures
        kind == 1 ==> task_shape(t, span, TaskNew::UploadTask(amount)),
        kind == 2 ==> task_shape(t, span, TaskNew::RenderTask(amount)),
        kind != 1 && kind != 2 ==> task_shape(t, span, TaskNew::ComputeTask),
{
    if kind == 1 {
        Task::new(span, TaskNew::UploadTask(amount))
    } else if kind == 2 {
        Task::new(span, TaskNew::RenderTask(amount))
    } else {
        Task::new(span, TaskNew::ComputeTask)
    }
}

/// The draws behind a task lie in the ranges its kind draws from: a kind
/// from `0..3`, a span from the kind's span range, and a need from the
/// kind's need range (zero for a compute task, which draws none).
pub open spec fn draw_in_range(d: (i32, usize, i32)) -> bool {
    &&& 0 <= d.0 < 3
    &&& d.0 == 1 ==> 4 <= d.1 < 5 && 1 <= d.2 < 3
    &&& d.0 == 2 ==> 200 <= d.1 < 300 && 0 <= d.2 < 10
    &&& d.0 != 1 && d.0 != 2 ==> 10 <= d.1 < 50 && d.2 == 0
}

/// `task` is the task made from the draws `d` = (kind, span, need): it
/// runs for the drawn span, is pending, and an upload task needs the drawn
/// amount of upload bandwidth, a render task the drawn amount of video
/// memory, a compute task nothing.
pub open spec fn task_from_draw(task: Task, d: (i32, usize, i32)) -> bool {
    &&& task.time_span == d.1
    &&& task.time_in is None
    &&& d.0 == 1 ==> {
        &&& task.name@ == "upload"@
        &&& task.resource.network_upload_gbps == d.2
        &&& task.resource.network_download_gbps == 0
        &&& task.resource.vram_gbytes == 0
    }
    &&& d.0 == 2 ==> {
        &&& task.name@ == "render"@
        &&& task.resource.vram_gbytes == d.2
        &&& task.resource.network_download_gbps == 0
        &&& task.resource.network_upload_gbps == 0
    }
    &&& d.0 != 1 && d.0 != 2 ==> {
        &&& task.name@ == "compute"@
        &&& task.resource.vram_gbytes == 0
        &&& task.resource.network_download_gbps == 0
        &&& task.resource.network_upload_gbps == 0
    }
}

impl Job {
    /// `count` random tasks, drawn from a generator seeded with `count`,
    /// together with the values drawn for each: its kind, its span and its
    /// need (zero for a compute task, which draws none). Each task is the
    /// one made from exactly the values drawn for it.
    pub fn new_with_draws(count: usize) -> (res: (Job, Vec<(i32, usize, i32)>))
        ensures
            res.0.tasks.len() == count,
            res.1.len() == count,
            forall|k: int| 0 <= k < count ==> draw_in_range(#[trigger] res.1[k]),
            forall|k: int|
                0 <= k < count ==> (#[trigger] res.0.tasks[k]).time_span == res.1[k].1
                    && res.0.tasks[k].time_in is None,
            forall|k: int|
                0 <= k < count && res.1[k].0 == 1 ==> (#[trigger] res.0.tasks[k]).name@ == "upload"@
                    && res.0.tasks[k].resource.network_upload_gbps == res.1[k].2
                    && res.0.tasks[k].resource.network_download_gbps == 0
                    && res.0.tasks[k].resource.vram_gbytes == 0,
            forall|k: int|
                0 <= k < count && res.1[k].0 == 2 ==> (#[trigger] res.0.tasks[k]).name@ == "render"@
                    && res.0.tasks[k].resource.vram_gbytes == res.1[k].2
                    && res.0.tasks[k].resource.network_download_gbps == 0
                    && res.0.tasks[k].resource.network_upload_gbps == 0,
            forall|k: int|
                0 <= k < count && res.1[k].0 != 1 && res.1[k].0 != 2 ==> (#[trigger] res.0.tasks[k]).name@
                    == "compute"@ && res.0.tasks[k].resource.vram_gbytes == 0
                    && res.0.tasks[k].resource.network_download_gbps == 0
                    && res.0.tasks[k].resource.network_upload_gbps == 0,
            forall|k: int| 0 <= k < count ==> generated_task(#[trigger] res.0.tasks[k]),
    {
        let mut rng = std_rng_from_seed(count as u64);
        let mut tasks: Vec<Task> = Vec::new();
        let mut draws: Vec<(i32, usize, i32)> = Vec::new();
        let mut i: usize = 0;
        while i < count
            invariant
                i <= count,
                tasks.len() == i,
                draws.len() == i,
                forall|j: int| 0 <= j < i ==> draw_in_range(#[trigger] draws[j]),
                forall|j: int| 0 <= j < i ==> task_from_draw(#[trigger] tasks[j], draws[j]),
                forall|j: int| 0 <= j < i ==> generated_task(#[trigger] tasks[j]),
            decreases count - i,
        {
            let kind = random_i32_in(&mut rng, 0, 3);
            let (span_low, span_high) = span_range(kind);
            let span = random_usize_in(&mut rng, span_low, span_high);
            let amount = match amount_range(kind) {
                Some((low, high)) => random_i32_in(&mut rng, low, high),
                None => 0,
            };
            let task = task_for_draws(kind, span, amount);
            tasks.push(task);
            draws.push((kind, span, amount));
            i = i + 1;
        }
        proof {
            assert forall|k: int| 0 <= k < count implies task_from_draw(#[trigger] tasks[k], draws[k]) by {}
        }
        (Job { tasks }, draws)
    }

    /// `count` random tasks, drawn from a generator seeded with `count`:
    /// for each, a kind from `0..3`, then a span from its kind's span range,
    /// then, for upload and render tasks, a need from its kind's need range.
    pub fn new(count: usize) -> (job: Job)
        ensures
            job.tasks.len() == count,
            forall|i: int| 0 <= i < count ==> generated_task(#[trigger] job.tasks[i]),
            exists|draws: Seq<(i32, usize, i32)>|
                draws.len() == count && (forall|k: int| 0 <= k < count ==> draw_in_range(#[trigger] draws[k]))
                    && forall|k: int| 0 <= k < count ==> task_from_draw(#[trigger] job.tasks[k], draws[k]),
    {
        let (job, draws) = Self::new_with_draws(count);
        proof {
            assert forall|k: int| 0 <= k < count implies task_from_draw(#[trigger] job.tasks[k], draws@[k]) by {
                assert(job.tasks@[k].time_span == draws@[k].1);
            }
        }
        job
    }
}

} // verus!
