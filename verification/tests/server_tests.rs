use patent_webrender::job::Job;
use patent_webrender::resource::Resource;
use patent_webrender::server::{Server, SimEvent};
use patent_webrender::task::{Task, TaskNew};

fn res(vram: i32, down: i32, up: i32) -> Resource {
    Resource { vram_gbytes: vram, network_download_gbps: down, network_upload_gbps: up }
}

fn render(span: usize, vram: i32) -> Task {
    Task::new(span, TaskNew::RenderTask(vram))
}

fn starts(tasks: &[Task]) -> Vec<Option<usize>> {
    tasks.iter().map(|t| t.time_in).collect()
}

fn render_farm_server() -> Server {
    Server { resource: res(48 * 8, 10, 10) }
}

#[test]
fn single_task_starts_at_zero() {
    let s = Server { resource: res(10, 10, 10) };
    let out = s.simulate(vec![Task::new(7, TaskNew::ComputeTask)]);
    assert_eq!(starts(&out), vec![Some(0)]);
}

#[test]
fn empty_job_gives_empty_schedule() {
    let s = Server { resource: res(10, 10, 10) };
    assert!(s.can_simulate(&Vec::new()));
    assert!(s.simulate(Vec::new()).is_empty());
}

#[test]
fn second_task_waits_for_memory() {
    let s = Server { resource: res(10, 0, 0) };
    let out = s.simulate(vec![render(5, 6), render(4, 6)]);
    assert_eq!(starts(&out), vec![Some(0), Some(5)]);
}

#[test]
fn first_fit_in_list_order() {
    let s = Server { resource: res(10, 0, 0) };
    let out = s.simulate(vec![render(10, 8), render(2, 3), render(1, 2)]);
    // At 0 the large one starts, the middle one does not fit, the last one does.
    // At 1 the middle one still does not fit; at 10 it does.
    assert_eq!(starts(&out), vec![Some(0), Some(10), Some(0)]);
}

#[test]
fn tasks_that_fit_together_start_together() {
    let s = Server { resource: res(10, 10, 10) };
    let out = s.simulate(vec![
        Task::new(4, TaskNew::UploadTask(5)),
        Task::new(4, TaskNew::UploadTask(5)),
        Task::new(4, TaskNew::UploadTask(5)),
        Task::new(30, TaskNew::ComputeTask),
    ]);
    assert_eq!(starts(&out), vec![Some(0), Some(0), Some(4), Some(0)]);
}

#[test]
fn zero_span_tasks_start_and_end_at_once() {
    let s = Server { resource: res(5, 0, 0) };
    let out = s.simulate(vec![render(0, 5), render(0, 5), render(3, 5)]);
    assert_eq!(starts(&out), vec![Some(0), Some(0), Some(0)]);
}

#[test]
fn simulate_keeps_everything_but_the_start_times() {
    let s = render_farm_server();
    let job = Job::new(40);
    let out = s.simulate(job.tasks.clone());
    assert_eq!(out.len(), job.tasks.len());
    for (a, b) in out.iter().zip(job.tasks.iter()) {
        assert_eq!(a.name, b.name);
        assert_eq!(a.resource, b.resource);
        assert_eq!(a.time_span, b.time_span);
        assert!(a.time_in.is_some());
    }
}

#[test]
fn schedule_never_exceeds_the_server() {
    let s = render_farm_server();
    let job = Job::new(300);
    assert!(s.can_simulate(&job.tasks));
    let out = s.simulate(job.tasks);
    let last_end = out.iter().map(|t| t.time_in.unwrap() + t.time_span).max().unwrap();
    for time in 0..=last_end {
        let mut used = Resource::zero();
        for t in out.iter() {
            if t.is_running(time) {
                used = used.add(&t.resource);
            }
        }
        assert!(s.resource.sub(&used).is_nonnegative(), "over capacity at {}", time);
    }
}

#[test]
fn every_start_is_zero_or_another_end() {
    let s = render_farm_server();
    let out = s.simulate(Job::new(200).tasks);
    for (i, t) in out.iter().enumerate() {
        let start = t.time_in.unwrap();
        let at_event = start == 0
            || out
                .iter()
                .enumerate()
                .any(|(j, u)| j != i && u.time_span > 0 && u.time_in.unwrap() + u.time_span == start);
        assert!(at_event, "task {} starts at {}", i, start);
    }
}

#[test]
fn every_task_ends_by_the_total_span() {
    let s = Server { resource: res(1, 0, 0) };
    let tasks = vec![render(3, 1), render(4, 1), render(5, 1)];
    let out = s.simulate(tasks);
    assert_eq!(starts(&out), vec![Some(0), Some(3), Some(7)]);
    for t in out.iter() {
        assert!(t.time_in.unwrap() + t.time_span <= 12);
    }
}

#[test]
fn can_simulate_refuses_a_task_larger_than_the_server() {
    let s = Server { resource: res(10, 10, 10) };
    assert!(!s.can_simulate(&vec![render(5, 11)]));
    assert!(s.can_simulate(&vec![render(5, 10)]));
}

#[test]
fn can_simulate_refuses_started_tasks() {
    let s = Server { resource: res(10, 10, 10) };
    let mut t = render(5, 1);
    t.run(3);
    assert!(!s.can_simulate(&vec![t]));
}

#[test]
fn large_server_with_nonnegative_needs_is_accepted() {
    let s = Server { resource: res(i32::MAX, i32::MAX, i32::MAX) };
    let tasks = vec![render(5, 1), render(5, i32::MAX), Task::new(3, TaskNew::UploadTask(i32::MAX))];
    assert!(s.can_simulate(&tasks));
    let out = s.simulate(tasks);
    assert_eq!(starts(&out), vec![Some(0), Some(5), Some(0)]);
}

#[test]
fn empty_job_on_any_server() {
    let s = Server { resource: res(i32::MIN, -1, 0) };
    assert!(s.can_simulate(&Vec::new()));
    assert!(s.simulate(Vec::new()).is_empty());
}

#[test]
fn negative_needs_need_sizes_within_i32() {
    // With a negative need the sizes must fit: here the capacity left would be i32::MAX + 1.
    let s = Server { resource: res(i32::MAX, 0, 0) };
    assert!(!s.can_simulate(&vec![render(5, -1)]));
    let s = Server { resource: res(i32::MAX - 1, 0, 0) };
    assert!(s.can_simulate(&vec![render(5, -1)]));
    let s = Server { resource: res(10, 0, 0) };
    let tasks = vec![render(5, -2), render(5, 10), render(1, 2)];
    assert!(s.can_simulate(&tasks));
    let out = s.simulate(tasks);
    assert_eq!(starts(&out), vec![Some(0), Some(0), Some(0)]);
}

#[test]
fn can_simulate_refuses_spans_beyond_usize() {
    let s = Server { resource: res(10, 10, 10) };
    assert!(!s.can_simulate(&vec![render(usize::MAX, 1), render(1, 1)]));
    assert!(s.can_simulate(&vec![render(usize::MAX - 1, 1), render(1, 1)]));
}

#[test]
fn visualize_rows_describe_each_start() {
    let s = Server { resource: res(10, 10, 10) };
    let out = s.simulate(vec![
        render(5, 6),
        Task::new(4, TaskNew::UploadTask(3)),
        render(2, 4),
        render(3, 6),
    ]);
    assert_eq!(starts(&out), vec![Some(0), Some(0), Some(0), Some(5)]);
    assert!(s.can_visualize(&out));
    let rows = s.visualize(&out);
    assert_eq!(rows.len(), 4);
    let lines: Vec<(usize, usize, i32, i32, usize, String)> = rows
        .iter()
        .map(|r| (r.time, r.time_span, r.vram_gbytes, r.network_upload_gbps, r.stage, r.name.clone()))
        .collect();
    assert_eq!(
        lines,
        vec![
            (0, 5, 10, 3, 0, "render".to_string()),
            (0, 4, 10, 3, 1, "upload".to_string()),
            (0, 2, 10, 3, 2, "render".to_string()),
            (5, 3, 6, 0, 0, "render".to_string()),
        ]
    );
}

#[test]
fn can_visualize_refuses_pending_tasks() {
    let s = Server { resource: res(10, 10, 10) };
    assert!(!s.can_visualize(&vec![render(5, 1)]));
    assert!(s.can_visualize(&Vec::new()));
}

#[test]
fn can_visualize_refuses_overflowing_sums() {
    let s = Server { resource: res(10, 10, 10) };
    let mut a = render(5, i32::MAX);
    a.run(0);
    let mut b = render(5, 1);
    b.run(0);
    assert!(!s.can_visualize(&vec![a.clone(), b.clone()]));
    let mut c = render(5, 1);
    c.run(5);
    assert!(s.can_visualize(&vec![a, c]));
}

#[test]
fn can_visualize_refuses_ends_beyond_usize() {
    let s = Server { resource: res(10, 10, 10) };
    let mut a = render(usize::MAX, 1);
    a.run(1);
    assert!(!s.can_visualize(&vec![a]));
}

fn used_at(out: &[Task], time: usize) -> Resource {
    let mut used = Resource::zero();
    for t in out.iter() {
        if t.is_running(time) {
            used = used.add(&t.resource);
        }
    }
    used
}

#[test]
fn never_idle_while_work_remains() {
    let s = render_farm_server();
    let out = s.simulate(Job::new(150).tasks);
    let last_end = out.iter().map(|t| t.time_in.unwrap() + t.time_span).max().unwrap();
    for time in 0..last_end {
        assert!(out.iter().any(|t| t.is_running(time)), "idle at {}", time);
    }
}

#[test]
fn a_task_waits_only_while_it_does_not_fit() {
    let s = Server { resource: res(10, 0, 0) };
    let out = s.simulate(vec![render(10, 8), render(2, 3), render(1, 2), render(4, 7)]);
    for (i, t) in out.iter().enumerate() {
        for time in 0..t.time_in.unwrap() {
            let left = s.resource.sub(&used_at(&out, time)).sub(&t.resource);
            assert!(!left.is_nonnegative(), "task {} could have started at {}", i, time);
        }
    }
}

#[test]
fn earlier_tasks_that_wait_did_not_fit_when_later_ones_started() {
    let s = Server { resource: res(10, 0, 0) };
    let out = s.simulate(vec![render(10, 8), render(2, 3), render(1, 2), render(4, 7), render(3, 1)]);
    for j in 0..out.len() {
        let tj = out[j].time_in.unwrap();
        let mut used = Resource::zero();
        for (k, t) in out.iter().enumerate() {
            if t.is_running(tj) && (t.time_in.unwrap() < tj || k < j) {
                used = used.add(&t.resource);
            }
        }
        for i in 0..j {
            if tj < out[i].time_in.unwrap() {
                let left = s.resource.sub(&used).sub(&out[i].resource);
                assert!(!left.is_nonnegative(), "task {} was skipped for task {}", i, j);
            }
        }
    }
}

#[test]
fn trace_records_each_step() {
    let s = Server { resource: res(10, 0, 0) };
    let (out, events) = s.simulate_traced(vec![render(5, 6), render(4, 6)]);
    assert_eq!(starts(&out), vec![Some(0), Some(5)]);
    assert_eq!(
        events,
        vec![
            SimEvent::Capacity { time: 0, capacity: res(10, 0, 0) },
            SimEvent::Start { time: 0, index: 0 },
            SimEvent::Capacity { time: 0, capacity: res(4, 0, 0) },
            SimEvent::Advance { from: 0, to: 5 },
            SimEvent::Continue { time: 5 },
            SimEvent::Capacity { time: 5, capacity: res(10, 0, 0) },
            SimEvent::Start { time: 5, index: 1 },
            SimEvent::Capacity { time: 5, capacity: res(4, 0, 0) },
            SimEvent::Advance { from: 5, to: 9 },
        ]
    );
}

#[test]
fn traced_and_plain_simulation_agree() {
    let s = render_farm_server();
    let job = Job::new(120);
    let plain = s.simulate(job.tasks.clone());
    let (traced, events) = s.simulate_traced(job.tasks);
    assert_eq!(starts(&plain), starts(&traced));
    let start_events = events
        .iter()
        .filter(|e| matches!(e, SimEvent::Start { .. }))
        .count();
    assert_eq!(start_events, plain.len());
}

#[test]
fn rows_of_a_simulated_job_stay_within_the_server() {
    let s = render_farm_server();
    let out = s.simulate(Job::new(400).tasks);
    assert!(s.can_visualize(&out));
    let rows = s.visualize(&out);
    for (i, r) in rows.iter().enumerate() {
        assert!(r.vram_gbytes <= s.resource.vram_gbytes);
        assert!(r.network_upload_gbps <= s.resource.network_upload_gbps);
        assert!(r.stage <= i && r.stage < rows.len());
    }
}

#[test]
fn trace_of_an_empty_job() {
    let s = Server { resource: res(384, 10, 10) };
    let (out, events) = s.simulate_traced(Vec::new());
    assert!(out.is_empty());
    assert_eq!(
        events,
        vec![
            SimEvent::Capacity { time: 0, capacity: res(384, 10, 10) },
            SimEvent::Advance { from: 0, to: usize::MAX },
        ]
    );
}

#[test]
fn trace_with_first_fit_and_zero_span() {
    let s = Server { resource: res(10, 0, 0) };
    let (out, events) = s.simulate_traced(vec![render(3, 8), render(0, 5), render(2, 2)]);
    assert_eq!(starts(&out), vec![Some(0), Some(3), Some(0)]);
    assert_eq!(
        events,
        vec![
            SimEvent::Capacity { time: 0, capacity: res(10, 0, 0) },
            SimEvent::Start { time: 0, index: 0 },
            SimEvent::Capacity { time: 0, capacity: res(2, 0, 0) },
            SimEvent::Start { time: 0, index: 2 },
            SimEvent::Capacity { time: 0, capacity: res(0, 0, 0) },
            SimEvent::Advance { from: 0, to: 2 },
            SimEvent::Continue { time: 2 },
            SimEvent::Capacity { time: 2, capacity: res(2, 0, 0) },
            SimEvent::Advance { from: 2, to: 3 },
            SimEvent::Continue { time: 3 },
            SimEvent::Capacity { time: 3, capacity: res(10, 0, 0) },
            SimEvent::Start { time: 3, index: 1 },
            SimEvent::Capacity { time: 3, capacity: res(10, 0, 0) },
            SimEvent::Advance { from: 3, to: usize::MAX },
        ]
    );
}

#[test]
fn rows_do_not_depend_on_the_server() {
    let out = render_farm_server().simulate(Job::new(60).tasks);
    let a = Server { resource: res(1, 2, 3) }.visualize(&out);
    let b = Server { resource: res(-7, 0, i32::MAX) }.visualize(&out);
    let key = |r: &patent_webrender::server::VisualRow| {
        (r.time, r.time_span, r.vram_gbytes, r.network_upload_gbps, r.stage, r.name.clone())
    };
    assert_eq!(a.iter().map(key).collect::<Vec<_>>(), b.iter().map(key).collect::<Vec<_>>());
}
