use patent_webrender::resource::Resource;
use patent_webrender::task::{Task, TaskNew};

#[test]
fn new_compute_task() {
    let t = Task::new(20, TaskNew::ComputeTask);
    assert_eq!(t.name, "compute");
    assert_eq!(t.time_span, 20);
    assert_eq!(t.time_in, None);
    assert_eq!(t.resource, Resource::zero());
}

#[test]
fn new_render_task_needs_vram() {
    let t = Task::new(250, TaskNew::RenderTask(7));
    assert_eq!(t.name, "render");
    assert_eq!(t.time_span, 250);
    assert_eq!(t.time_in, None);
    assert_eq!(t.resource.as_vector(), [7, 0, 0]);
}

#[test]
fn new_upload_task_needs_upload() {
    let t = Task::new(4, TaskNew::UploadTask(2));
    assert_eq!(t.name, "upload");
    assert_eq!(t.time_span, 4);
    assert_eq!(t.time_in, None);
    assert_eq!(t.resource.as_vector(), [0, 0, 2]);
}

#[test]
fn run_sets_the_start_time() {
    let mut t = Task::new(3, TaskNew::ComputeTask);
    assert!(t.is_pending());
    t.run(5);
    assert_eq!(t.time_in, Some(5));
    assert!(!t.is_pending());
    assert_eq!(t.time_span, 3);
}

#[test]
fn running_is_half_open() {
    let mut t = Task::new(3, TaskNew::ComputeTask);
    t.run(5);
    assert!(!t.is_running(4));
    assert!(t.is_running(5));
    assert!(t.is_running(7));
    assert!(!t.is_running(8));
}

#[test]
fn finished_means_started_and_not_running() {
    let mut t = Task::new(3, TaskNew::ComputeTask);
    assert!(!t.is_finished(0));
    t.run(5);
    assert!(t.is_finished(4));
    assert!(!t.is_finished(6));
    assert!(t.is_finished(8));
    assert!(t.is_finished(100));
}

#[test]
fn pending_task_never_runs() {
    let t = Task::new(3, TaskNew::RenderTask(1));
    for time in 0..10 {
        assert!(!t.is_running(time));
        assert!(!t.is_finished(time));
        assert!(t.is_pending());
    }
}

#[test]
fn zero_span_task_never_runs() {
    let mut t = Task::new(0, TaskNew::UploadTask(1));
    t.run(4);
    assert!(!t.is_running(4));
    assert!(t.is_finished(4));
}

#[test]
fn exactly_one_state_at_every_time() {
    let mut t = Task::new(2, TaskNew::ComputeTask);
    t.run(3);
    for time in 0..8 {
        let states = [t.is_pending(), t.is_running(time), t.is_finished(time)];
        assert_eq!(states.iter().filter(|b| **b).count(), 1);
    }
}
