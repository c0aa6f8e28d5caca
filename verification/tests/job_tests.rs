use patent_webrender::job::{amount_range, span_range, task_for_draws, Job};

fn check_task(t: &patent_webrender::task::Task) {
    assert_eq!(t.time_in, None);
    let v = t.resource.as_vector();
    match t.name.as_str() {
        "compute" => {
            assert_eq!(v, [0, 0, 0]);
            assert!((10..50).contains(&t.time_span));
        }
        "render" => {
            assert!((0..10).contains(&v[0]));
            assert_eq!((v[1], v[2]), (0, 0));
            assert!((200..300).contains(&t.time_span));
        }
        "upload" => {
            assert!((1..3).contains(&v[2]));
            assert_eq!((v[0], v[1]), (0, 0));
            assert_eq!(t.time_span, 4);
        }
        other => panic!("unexpected task {}", other),
    }
}

#[test]
fn job_has_the_requested_number_of_tasks() {
    assert_eq!(Job::new(0).tasks.len(), 0);
    assert_eq!(Job::new(1).tasks.len(), 1);
    assert_eq!(Job::new(2500).tasks.len(), 2500);
}

#[test]
fn job_tasks_have_the_three_shapes() {
    for t in Job::new(500).tasks.iter() {
        check_task(t);
    }
}

#[test]
fn job_draws_vary() {
    let job = Job::new(300);
    let kinds: std::collections::BTreeSet<&str> = job.tasks.iter().map(|t| t.name.as_str()).collect();
    assert_eq!(kinds.len(), 3);
    let spans: std::collections::BTreeSet<usize> = job.tasks.iter().map(|t| t.time_span).collect();
    assert!(spans.len() > 10);
}

#[test]
fn job_is_determined_by_its_size() {
    let a = Job::new(100);
    let b = Job::new(100);
    for (x, y) in a.tasks.iter().zip(b.tasks.iter()) {
        assert_eq!(x.name, y.name);
        assert_eq!(x.resource, y.resource);
        assert_eq!(x.time_span, y.time_span);
    }
}

#[test]
fn draws_map_to_kinds() {
    let up = task_for_draws(1, 4, 2);
    assert_eq!(up.name, "upload");
    assert_eq!(up.resource.as_vector(), [0, 0, 2]);
    assert_eq!(up.time_span, 4);
    let render = task_for_draws(2, 250, 9);
    assert_eq!(render.name, "render");
    assert_eq!(render.resource.as_vector(), [9, 0, 0]);
    assert_eq!(render.time_span, 250);
    let compute = task_for_draws(0, 17, 5);
    assert_eq!(compute.name, "compute");
    assert_eq!(compute.resource.as_vector(), [0, 0, 0]);
    assert_eq!(compute.time_span, 17);
    assert_eq!(task_for_draws(7, 1, 1).name, "compute");
}

#[test]
fn ranges_per_kind() {
    assert_eq!(span_range(1), (4, 5));
    assert_eq!(span_range(2), (200, 300));
    assert_eq!(span_range(0), (10, 50));
    assert_eq!(amount_range(1), Some((1, 3)));
    assert_eq!(amount_range(2), Some((0, 10)));
    assert_eq!(amount_range(0), None);
}
