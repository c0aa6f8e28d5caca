use vstd::prelude::*;

use crate::resource::{
    abs, amounts_add, amounts_nonneg, amounts_sub, component, fits_i32, zero_amounts, Amounts,
    Resource,
};
use crate::sums::{
    count_below, lemma_count_bounds, lemma_count_is_card, lemma_count_mono, lemma_sum_abs_bound, lemma_sum_change_one,
    lemma_sum_ext, lemma_sum_mono, lemma_sum_nonneg, lemma_sum_prefix,
    lemma_sum_zero, sum_below,
};
use crate::task::{
    end_representable_at, task_end, task_finished, task_pending, task_running, Task,
};

verus! {

/// A machine with a fixed amount of each resource.
pub struct Server {
    pub resource: Resource,
}

// ---------------------------------------------------------------------------
// What runs at a given time
// ---------------------------------------------------------------------------

/// Term `i` of component `k` of the total occupied at `t`: task `i`'s need
/// when it runs at `t`, zero otherwise.
pub open spec fn used_term(s: Seq<Task>, t: int, k: int) -> spec_fn(int) -> int {
    |i: int|
        if task_running(s[i], t) {
            component(s[i].resource@, k)
        } else {
            0
        }
}

/// Component `k` of what the tasks running at `t` occupy together.
pub open spec fn used_component(s: Seq<Task>, t: int, k: int) -> int {
    sum_below(s.len() as int, used_term(s, t, k))
}

/// What the tasks running at `t` occupy together.
pub open spec fn used_at(s: Seq<Task>, t: int) -> Amounts {
    (used_component(s, t, 0), used_component(s, t, 1), used_component(s, t, 2))
}

/// `a` is at most `b` in every component.
pub open spec fn amounts_le(a: Amounts, b: Amounts) -> bool {
    &&& a.0 <= b.0
    &&& a.1 <= b.1
    &&& a.2 <= b.2
}

/// Every running total met while adding up, in list order, component `k`
/// of the tasks that run at `t` fits in an `i32`.
pub open spec fn running_sums_fit(s: Seq<Task>, t: int) -> bool {
    forall|m: int, k: int|
        0 <= m <= s.len() && 0 <= k < 3 ==> fits_i32(#[trigger] sum_below(m, used_term(s, t, k)))
}

pub open spec fn abs_term(s: Seq<Task>, k: int) -> spec_fn(int) -> int {
    |i: int| abs(component(s[i].resource@, k))
}

/// The sum of the sizes of component `k` of all tasks.
pub open spec fn abs_total(s: Seq<Task>, k: int) -> int {
    sum_below(s.len() as int, abs_term(s, k))
}

pub open spec fn span_term(s: Seq<Task>) -> spec_fn(int) -> int {
    |i: int| s[i].time_span as int
}

/// The sum of the spans of all tasks.
pub open spec fn span_total(s: Seq<Task>) -> int {
    sum_below(s.len() as int, span_term(s))
}

pub open spec fn started_span_term(s: Seq<Task>) -> spec_fn(int) -> int {
    |i: int|
        if s[i].time_in is Some {
            s[i].time_span as int
        } else {
            0
        }
}

/// The sum of the spans of the tasks that have been started.
pub open spec fn started_span_total(s: Seq<Task>) -> int {
    sum_below(s.len() as int, started_span_term(s))
}

pub open spec fn pending_pred(s: Seq<Task>) -> spec_fn(int) -> bool {
    |i: int| task_pending(s[i])
}

/// The number of tasks not started yet.
pub open spec fn pending_count(s: Seq<Task>) -> int {
    count_below(s.len() as int, pending_pred(s))
}

pub open spec fn unfinished_pred(s: Seq<Task>, t: int) -> spec_fn(int) -> bool {
    |i: int| task_pending(s[i]) || task_end(s[i]) > t
}

/// The number of tasks that are pending or have not ended by `t`.
pub open spec fn unfinished_count(s: Seq<Task>, t: int) -> int {
    count_below(s.len() as int, unfinished_pred(s, t))
}

/// Two tasks are the same piece of work, whatever their start times.
pub open spec fn same_job(a: Task, b: Task) -> bool {
    &&& a.resource == b.resource
    &&& a.name == b.name
    &&& a.time_span == b.time_span
}

// ---------------------------------------------------------------------------
// The greedy schedule
// ---------------------------------------------------------------------------

/// Task `i` is pending and what is left of the server at `t`, once the
/// running tasks are served, covers its need.
pub open spec fn can_start(server: Amounts, s: Seq<Task>, t: int, i: int) -> bool {
    &&& task_pending(s[i])
    &&& amounts_nonneg(amounts_sub(amounts_sub(server, used_at(s, t)), s[i].resource@))
}

/// The first task at index `k` or later that can start at `t`.
pub open spec fn first_fit_from(server: Amounts, s: Seq<Task>, t: int, k: int) -> Option<int>
    decreases s.len() - k,
{
    if k < 0 || k >= s.len() {
        None
    } else if can_start(server, s, t, k) {
        Some(k)
    } else {
        first_fit_from(server, s, t, k + 1)
    }
}

/// Task `i` started at `t`.
pub open spec fn start_task(s: Seq<Task>, i: int, t: usize) -> Seq<Task> {
    s.update(i, Task { time_in: Some(t), ..s[i] })
}

/// Starting, one at a time and at most `fuel` times, the first task in list
/// order that can start at `t`, until none can.
pub open spec fn admit_all(server: Amounts, s: Seq<Task>, t: usize, fuel: nat) -> Seq<Task>
    decreases fuel,
{
    if fuel == 0 {
        s
    } else {
        match first_fit_from(server, s, t as int, 0) {
            None => s,
            Some(i) => admit_all(server, start_task(s, i, t), t, (fuel - 1) as nat),
        }
    }
}

/// The earliest end among the first `n` tasks that run at `t`; `usize::MAX`
/// when none of them runs.
pub open spec fn next_below(s: Seq<Task>, t: int, n: int) -> int
    decreases n,
{
    if n <= 0 {
        usize::MAX as int
    } else {
        let rest = next_below(s, t, n - 1);
        if task_running(s[n - 1], t) && task_end(s[n - 1]) < rest {
            task_end(s[n - 1])
        } else {
            rest
        }
    }
}

/// The next time the schedule has to look at after `t`.
pub open spec fn next_time(s: Seq<Task>, t: int) -> int {
    next_below(s, t, s.len() as int)
}

/// Every task has been started and is not running at `t`.
pub open spec fn all_finished(s: Seq<Task>, t: int) -> bool {
    forall|i: int| 0 <= i < s.len() ==> task_finished(#[trigger] s[i], t)
}

/// At most `fuel` rounds of: start what can start at `t`, then move to the
/// next time; stop once every task is finished.
pub open spec fn sim_rounds(server: Amounts, s: Seq<Task>, t: usize, fuel: nat) -> Seq<Task>
    decreases fuel,
{
    let a = admit_all(server, s, t, s.len());
    let t1 = next_time(a, t as int);
    if fuel <= 1 || all_finished(a, t1) {
        a
    } else {
        sim_rounds(server, a, t1 as usize, (fuel - 1) as nat)
    }
}

/// The schedule the server computes for `tasks`, starting at time zero.
pub open spec fn simulation(server: Resource, tasks: Seq<Task>) -> Seq<Task> {
    sim_rounds(server@, tasks, 0, (tasks.len() + 1) as nat)
}

/// No task needs anything negative.
pub open spec fn needs_nonneg(tasks: Seq<Task>) -> bool {
    forall|i: int| 0 <= i < tasks.len() ==> amounts_nonneg((#[trigger] tasks[i]).resource@)
}

/// The size of each component of the server plus the sizes of that
/// component of all needs fit in an `i32`.
pub open spec fn sizes_fit(server: Resource, tasks: Seq<Task>) -> bool {
    forall|k: int| 0 <= k < 3 ==> abs(#[trigger] component(server@, k)) + abs_total(tasks, k) <= i32::MAX
}

/// The inputs on which `simulate` is proved to end without an overflow:
/// every task is still pending; every task fits on the idle server (with
/// needs that are never negative, a task that does not fit keeps the
/// schedule from ever ending); the spans together fit in a `usize`; and
/// either no need is negative (then what is in use never exceeds the server,
/// so no sum leaves an `i32`) or the sizes of the server and of all needs
/// together fit in an `i32`.
pub open spec fn simulation_admissible(server: Resource, tasks: Seq<Task>) -> bool {
    &&& forall|i: int| 0 <= i < tasks.len() ==> task_pending(#[trigger] tasks[i])
    &&& forall|i: int|
        0 <= i < tasks.len() ==> amounts_nonneg(
            amounts_sub(server@, (#[trigger] tasks[i]).resource@),
        )
    &&& span_total(tasks) <= usize::MAX
    &&& needs_nonneg(tasks) || sizes_fit(server, tasks)
}

/// Task `i` starts at time zero or exactly when another task, one that
/// actually ran, ends.
pub open spec fn starts_at_event(s: Seq<Task>, i: int) -> bool {
    ||| s[i].time_in->0 == 0
    ||| exists|j: int|
        0 <= j < s.len() && j != i && (#[trigger] s[j]).time_in is Some && s[j].time_span > 0
            && task_end(s[j]) == s[i].time_in->0
}

/// `t` is zero or the end of a started task that actually ran.
pub open spec fn is_event_time(s: Seq<Task>, t: int) -> bool {
    ||| t == 0
    ||| exists|j: int|
        0 <= j < s.len() && (#[trigger] s[j]).time_in is Some && s[j].time_span > 0 && task_end(s[j])
            == t
}

/// What the tasks of `s` running at `time` leave free covers the need of task `i`.
pub open spec fn fits_at(server: Amounts, s: Seq<Task>, time: int, i: int) -> bool {
    amounts_nonneg(amounts_sub(amounts_sub(server, used_at(s, time)), s[i].resource@))
}

/// Some task runs at `time`.
pub open spec fn busy_at(s: Seq<Task>, time: int) -> bool {
    exists|j: int| 0 <= j < s.len() && task_running(#[trigger] s[j], time)
}

/// Some task has not ended by `time`.
pub open spec fn work_left_at(s: Seq<Task>, time: int) -> bool {
    exists|j: int| 0 <= j < s.len() && task_end(#[trigger] s[j]) > time
}

/// Term `k` of component `c` of what occupies the server at the moment task
/// `j` starts at `t`: the tasks running at `t` that started before `t`, or
/// at `t` but earlier in the list than `j`.
pub open spec fn used_before_term(s: Seq<Task>, t: int, j: int, c: int) -> spec_fn(int) -> int {
    |k: int|
        if task_running(s[k], t) && (s[k].time_in->0 < t || k < j) {
            component(s[k].resource@, c)
        } else {
            0
        }
}

/// What occupies the server at the moment task `j` starts at `t`.
pub open spec fn used_before(s: Seq<Task>, t: int, j: int) -> Amounts {
    (
        sum_below(s.len() as int, used_before_term(s, t, j, 0)),
        sum_below(s.len() as int, used_before_term(s, t, j, 1)),
        sum_below(s.len() as int, used_before_term(s, t, j, 2)),
    )
}

/// At the moment task `j` starts, what is left of the server covers the need of task `i`.
pub open spec fn fits_before(server: Amounts, s: Seq<Task>, j: int, i: int) -> bool {
    amounts_nonneg(
        amounts_sub(amounts_sub(server, used_before(s, s[j].time_in->0 as int, j)), s[i].resource@),
    )
}

/// One step of a simulation, in the order the steps happen.
#[derive(Debug, Clone, Copy, PartialEq, Eq, Structural)]
pub enum SimEvent {
    /// Before looking for a task to start at `time`: what the running tasks leave free.
    Capacity { time: usize, capacity: Resource },
    /// Task `index` starts at `time`.
    Start { time: usize, index: usize },
    /// The clock moves from `from` to `to`.
    Advance { from: usize, to: usize },
    /// Not every task is finished at `time`, so the simulation goes on.
    Continue { time: usize },
}

/// Event `e` of `trace` is the start of task `k`.
pub open spec fn starts_task(trace: Seq<SimEvent>, e: int, k: int) -> bool {
    trace[e] matches SimEvent::Start { index, .. } && index == k
}

/// Task `k` starts in one of the first `bound` events.
pub open spec fn listed_before(trace: Seq<SimEvent>, bound: int, k: int) -> bool {
    exists|e: int| 0 <= e < bound && #[trigger] starts_task(trace, e, k)
}

pub open spec fn used_listed_term(s: Seq<Task>, trace: Seq<SimEvent>, bound: int, time: int, c: int) -> spec_fn(
    int,
) -> int {
    |k: int|
        if listed_before(trace, bound, k) && task_running(s[k], time) {
            component(s[k].resource@, c)
        } else {
            0
        }
}

/// What the tasks started in the first `bound` events of `trace` occupy at `time`.
pub open spec fn used_listed(s: Seq<Task>, trace: Seq<SimEvent>, bound: int, time: int) -> Amounts {
    (
        sum_below(s.len() as int, used_listed_term(s, trace, bound, time, 0)),
        sum_below(s.len() as int, used_listed_term(s, trace, bound, time, 1)),
        sum_below(s.len() as int, used_listed_term(s, trace, bound, time, 2)),
    )
}

/// Event `e` of `trace` says what happened to the tasks of the schedule `s`.
pub open spec fn event_fits(server: Amounts, s: Seq<Task>, trace: Seq<SimEvent>, e: int) -> bool {
    match trace[e] {
        SimEvent::Capacity { time, capacity } => capacity@ == amounts_sub(
            server,
            used_listed(s, trace, e, time as int),
        ),
        SimEvent::Start { time, index } => index < s.len() && s[index as int].time_in == Some(time),
        SimEvent::Advance { from, to } => to == next_time(s, from as int),
        SimEvent::Continue { time } => exists|k: int|
            0 <= k < s.len() && (task_pending(#[trigger] s[k]) || s[k].time_in->0 >= time
                || task_running(s[k], time as int)),
    }
}

/// `trace` records the making of the schedule `s`: each event fits `s`,
/// every started task has exactly one start event.
pub open spec fn trace_describes(server: Amounts, s: Seq<Task>, trace: Seq<SimEvent>) -> bool {
    &&& forall|e: int| 0 <= e < trace.len() ==> #[trigger] event_fits(server, s, trace, e)
    &&& forall|k: int|
        0 <= k < s.len() && (#[trigger] s[k]).time_in is Some ==> listed_before(trace, trace.len() as int, k)
    &&& forall|a: int, b: int, k: int|
        0 <= a < trace.len() && 0 <= b < trace.len() && #[trigger] starts_task(trace, a, k)
            && #[trigger] starts_task(trace, b, k) ==> a == b
}

/// The time of an event: the clock reading when it happened.
pub open spec fn event_time(ev: SimEvent) -> int {
    match ev {
        SimEvent::Capacity { time, .. } => time as int,
        SimEvent::Start { time, .. } => time as int,
        SimEvent::Advance { from, .. } => from as int,
        SimEvent::Continue { time } => time as int,
    }
}

/// What the tasks of `s` running at `t` leave free on the server.
pub open spec fn capacity_left(server: Resource, s: Seq<Task>, t: int) -> Resource {
    Resource {
        vram_gbytes: (server.vram_gbytes - used_at(s, t).0) as i32,
        network_download_gbps: (server.network_download_gbps - used_at(s, t).1) as i32,
        network_upload_gbps: (server.network_upload_gbps - used_at(s, t).2) as i32,
    }
}

/// The steps of starting tasks at `t`: each time, what is left free, then
/// the start of the first task that fits, until none fits.
pub open spec fn admit_trace(server: Resource, s: Seq<Task>, t: usize, fuel: nat) -> Seq<SimEvent>
    decreases fuel,
{
    seq![SimEvent::Capacity { time: t, capacity: capacity_left(server, s, t as int) }] + match first_fit_from(
        server@,
        s,
        t as int,
        0,
    ) {
        None => Seq::empty(),
        Some(i) => if fuel == 0 {
            Seq::empty()
        } else {
            seq![SimEvent::Start { time: t, index: i as usize }] + admit_trace(
                server,
                start_task(s, i, t),
                t,
                (fuel - 1) as nat,
            )
        },
    }
}

/// The steps of at most `fuel` rounds of the schedule, as `sim_rounds` takes them.
pub open spec fn sim_trace(server: Resource, s: Seq<Task>, t: usize, fuel: nat) -> Seq<SimEvent>
    decreases fuel,
{
    let a = admit_all(server@, s, t, s.len());
    let t1 = next_time(a, t as int);
    admit_trace(server, s, t, s.len()) + seq![SimEvent::Advance { from: t, to: t1 as usize }] + if fuel
        <= 1 || all_finished(a, t1) {
        Seq::empty()
    } else {
        seq![SimEvent::Continue { time: t1 as usize }] + sim_trace(server, a, t1 as usize, (fuel - 1) as nat)
    }
}

/// The steps the server takes to schedule `tasks`.
pub open spec fn simulation_trace(server: Resource, tasks: Seq<Task>) -> Seq<SimEvent> {
    sim_trace(server, tasks, 0, (tasks.len() + 1) as nat)
}

// ---------------------------------------------------------------------------
// Lemmas
// ---------------------------------------------------------------------------

pub proof fn lemma_first_fit(server: Amounts, s: Seq<Task>, t: int, k: int)
    requires
        0 <= k,
    ensures
        match first_fit_from(server, s, t, k) {
            Some(i) => k <= i < s.len() && can_start(server, s, t, i) && forall|j: int|
                k <= j < i ==> !can_start(server, s, t, j),
            None => forall|j: int| k <= j < s.len() ==> !can_start(server, s, t, j),
        },
    decreases s.len() - k,
{
    if k < s.len() && !can_start(server, s, t, k) {
        lemma_first_fit(server, s, t, k + 1);
    }
}

pub proof fn lemma_next_below(s: Seq<Task>, t: int, n: int)
    requires
        0 <= n <= s.len(),
    ensures
        forall|j: int| 0 <= j < n && task_running(s[j], t) ==> next_below(s, t, n) <= task_end(s[j]),
        next_below(s, t, n) == usize::MAX || exists|j: int|
            0 <= j < n && task_running(s[j], t) && next_below(s, t, n) == task_end(s[j]),
    decreases n,
{
    if n > 0 {
        lemma_next_below(s, t, n - 1);
    }
}

/// With a task `i` that does not run at `t`, what runs at `t` and the need
/// of task `i` together are no larger, component by component, than the
/// sizes of all needs together.
pub proof fn lemma_used_size(s: Seq<Task>, t: int, k: int, i: int)
    requires
        0 <= i < s.len(),
        !task_running(s[i], t),
    ensures
        abs(used_component(s, t, k)) + abs(component(s[i].resource@, k)) <= abs_total(s, k),
{
    let n = s.len() as int;
    let f = used_term(s, t, k);
    let g = abs_term(s, k);
    assert forall|j: int| 0 <= j < n implies abs(#[trigger] f(j)) + (if j == i { abs(component(s[i].resource@, k)) } else { 0 }) <= g(j) by {}
    lemma_sum_abs_bound(n, f, g, i, abs(component(s[i].resource@, k)));
}

/// When no task runs at `t`, nothing is occupied.
pub proof fn lemma_used_idle(s: Seq<Task>, t: int)
    requires
        forall|j: int| 0 <= j < s.len() ==> !task_running(#[trigger] s[j], t),
    ensures
        used_at(s, t) == zero_amounts(),
{
    let n = s.len() as int;
    assert forall|k: int| 0 <= k < 3 implies used_component(s, t, k) == 0 by {
        let f = used_term(s, t, k);
        assert forall|j: int| 0 <= j < n implies #[trigger] f(j) == 0 by {
            assert(!task_running(s[j], t));
        }
        lemma_sum_zero(n, f);
    }
    assert(used_component(s, t, 0) == 0);
    assert(used_component(s, t, 1) == 0);
    assert(used_component(s, t, 2) == 0);
}

/// With needs that are never negative, fewer running tasks occupy less.
pub proof fn lemma_used_mono(s: Seq<Task>, t1: int, t2: int)
    requires
        forall|j: int| 0 <= j < s.len() ==> amounts_nonneg((#[trigger] s[j]).resource@),
        forall|j: int| 0 <= j < s.len() && task_running(#[trigger] s[j], t1) ==> task_running(s[j], t2),
    ensures
        amounts_le(used_at(s, t1), used_at(s, t2)),
{
    let n = s.len() as int;
    assert forall|k: int| 0 <= k < 3 implies used_component(s, t1, k) <= used_component(s, t2, k) by {
        let f = used_term(s, t1, k);
        let g = used_term(s, t2, k);
        assert forall|j: int| 0 <= j < n implies #[trigger] f(j) <= g(j) by {
            assert(amounts_nonneg(s[j].resource@));
        }
        lemma_sum_mono(n, f, g);
    }
    assert(used_component(s, t1, 0) <= used_component(s, t2, 0));
    assert(used_component(s, t1, 1) <= used_component(s, t2, 1));
    assert(used_component(s, t1, 2) <= used_component(s, t2, 2));
}

/// Two lists of the same jobs have the same size and span totals.
pub proof fn lemma_same_jobs_totals(s1: Seq<Task>, s2: Seq<Task>)
    requires
        s1.len() == s2.len(),
        forall|i: int| 0 <= i < s1.len() ==> same_job(#[trigger] s1[i], s2[i]),
    ensures
        forall|k: int| abs_total(s1, k) == #[trigger] abs_total(s2, k),
        span_total(s1) == span_total(s2),
{
    let n = s1.len() as int;
    assert forall|k: int| abs_total(s1, k) == #[trigger] abs_total(s2, k) by {
        let f = abs_term(s1, k);
        let g = abs_term(s2, k);
        assert forall|j: int| 0 <= j < n implies #[trigger] f(j) == g(j) by {
            assert(same_job(s1[j], s2[j]));
        }
        lemma_sum_ext(n, f, g);
    }
    let f = span_term(s1);
    let g = span_term(s2);
    assert forall|j: int| 0 <= j < n implies #[trigger] f(j) == g(j) by {
        assert(same_job(s1[j], s2[j]));
    }
    lemma_sum_ext(n, f, g);
}

/// What starting a pending task at `t` changes.
pub proof fn lemma_start_effects(s: Seq<Task>, i: int, t: usize)
    requires
        0 <= i < s.len(),
        task_pending(s[i]),
    ensures
        pending_count(start_task(s, i, t)) < pending_count(s),
        0 <= pending_count(start_task(s, i, t)),
        started_span_total(start_task(s, i, t)) == started_span_total(s) + s[i].time_span,
        unfinished_count(start_task(s, i, t), t as int) <= unfinished_count(s, t as int),
        forall|time: int, k: int|
            #[trigger] used_component(start_task(s, i, t), time, k) == used_component(s, time, k)
                + (if t <= time < t + s[i].time_span {
                component(s[i].resource@, k)
            } else {
                0
            }),
        forall|time: int|
            #[trigger] used_at(start_task(s, i, t), time) == amounts_add(
                used_at(s, time),
                if t <= time < t + s[i].time_span {
                    s[i].resource@
                } else {
                    zero_amounts()
                },
            ),
{
    let s2 = start_task(s, i, t);
    let n = s.len() as int;
    // pending
    let p2 = pending_pred(s2);
    let p = pending_pred(s);
    assert forall|j: int| 0 <= j < n && #[trigger] p2(j) implies p(j) by {}
    assert(p(i) && !p2(i));
    lemma_count_mono(n, p2, p);
    lemma_count_bounds(n, p2);
    // started spans
    let f = started_span_term(s);
    let g = started_span_term(s2);
    assert forall|j: int| 0 <= j < n implies #[trigger] g(j) == f(j) + (if j == i { s[i].time_span as int } else { 0 }) by {}
    lemma_sum_change_one(n, f, g, i, s[i].time_span as int);
    // unfinished
    let u2 = unfinished_pred(s2, t as int);
    let u = unfinished_pred(s, t as int);
    assert forall|j: int| 0 <= j < n && #[trigger] u2(j) implies u(j) by {}
    lemma_count_mono(n, u2, u);
    // occupied
    assert forall|time: int, k: int|
        #[trigger] used_component(s2, time, k) == used_component(s, time, k) + (if t <= time < t
            + s[i].time_span {
            component(s[i].resource@, k)
        } else {
            0
        }) by {
        let c = if t <= time < t + s[i].time_span {
            component(s[i].resource@, k)
        } else {
            0
        };
        let fu = used_term(s, time, k);
        let gu = used_term(s2, time, k);
        assert forall|j: int| 0 <= j < n implies #[trigger] gu(j) == fu(j) + (if j == i { c } else { 0 }) by {}
        lemma_sum_change_one(n, fu, gu, i, c);
    }
    assert forall|time: int|
        #[trigger] used_at(s2, time) == amounts_add(
            used_at(s, time),
            if t <= time < t + s[i].time_span {
                s[i].resource@
            } else {
                zero_amounts()
            },
        ) by {
        assert(used_component(s2, time, 0) == used_component(s, time, 0) + (if t <= time < t
            + s[i].time_span {
            component(s[i].resource@, 0)
        } else {
            0
        }));
        assert(used_component(s2, time, 1) == used_component(s, time, 1) + (if t <= time < t
            + s[i].time_span {
            component(s[i].resource@, 1)
        } else {
            0
        }));
        assert(used_component(s2, time, 2) == used_component(s, time, 2) + (if t <= time < t
            + s[i].time_span {
            component(s[i].resource@, 2)
        } else {
            0
        }));
    }
}

/// What runs at `t` in `s1` is what, in `s2`, runs at `t` and started
/// before `t` or is listed before `j`; then both occupy the same.
pub proof fn lemma_used_before_is_used(s1: Seq<Task>, s2: Seq<Task>, t: int, j: int)
    requires
        s1.len() == s2.len(),
        forall|k: int| 0 <= k < s1.len() ==> (#[trigger] s1[k]).resource == s2[k].resource,
        forall|k: int|
            0 <= k < s1.len() ==> task_running(#[trigger] s1[k], t) == (task_running(s2[k], t) && (
            s2[k].time_in->0 < t || k < j)),
    ensures
        used_at(s1, t) == used_before(s2, t, j),
{
    let n = s1.len() as int;
    assert forall|c: int| 0 <= c < 3 implies used_component(s1, t, c) == sum_below(
        n,
        #[trigger] used_before_term(s2, t, j, c),
    ) by {
        let f = used_term(s1, t, c);
        let g = used_before_term(s2, t, j, c);
        assert forall|k: int| 0 <= k < n implies #[trigger] f(k) == g(k) by {
            assert(s1[k].resource == s2[k].resource);
        }
        lemma_sum_ext(n, f, g);
    }
    assert(used_component(s1, t, 0) == sum_below(n, used_before_term(s2, t, j, 0)));
    assert(used_component(s1, t, 1) == sum_below(n, used_before_term(s2, t, j, 1)));
    assert(used_component(s1, t, 2) == sum_below(n, used_before_term(s2, t, j, 2)));
}

/// Two lists whose tasks count the same toward the moment task `j` starts at `t`.
pub proof fn lemma_used_before_same(s1: Seq<Task>, s2: Seq<Task>, t: int, j: int)
    requires
        s1.len() == s2.len(),
        forall|k: int| 0 <= k < s1.len() ==> (#[trigger] s1[k]).resource == s2[k].resource,
        forall|k: int|
            0 <= k < s1.len() ==> (task_running(#[trigger] s1[k], t) && (s1[k].time_in->0 < t || k < j))
                == (task_running(s2[k], t) && (s2[k].time_in->0 < t || k < j)),
    ensures
        used_before(s1, t, j) == used_before(s2, t, j),
{
    let n = s1.len() as int;
    assert forall|c: int| 0 <= c < 3 implies sum_below(n, #[trigger] used_before_term(s1, t, j, c))
        == sum_below(n, used_before_term(s2, t, j, c)) by {
        let f = used_before_term(s1, t, j, c);
        let g = used_before_term(s2, t, j, c);
        assert forall|k: int| 0 <= k < n implies #[trigger] f(k) == g(k) by {
            assert(s1[k].resource == s2[k].resource);
        }
        lemma_sum_ext(n, f, g);
    }
    assert(sum_below(n, used_before_term(s1, t, j, 0)) == sum_below(n, used_before_term(s2, t, j, 0)));
    assert(sum_below(n, used_before_term(s1, t, j, 1)) == sum_below(n, used_before_term(s2, t, j, 1)));
    assert(sum_below(n, used_before_term(s1, t, j, 2)) == sum_below(n, used_before_term(s2, t, j, 2)));
}

/// The earliest end among tasks running at `t` depends only on which tasks
/// run at `t` and when they end.
pub proof fn lemma_next_below_same(s1: Seq<Task>, s2: Seq<Task>, t: int, n: int)
    requires
        0 <= n <= s1.len(),
        n <= s2.len(),
        forall|j: int|
            0 <= j < n ==> task_running(#[trigger] s1[j], t) == task_running(s2[j], t),
        forall|j: int| 0 <= j < n && task_running(#[trigger] s1[j], t) ==> task_end(s1[j]) == task_end(s2[j]),
    ensures
        next_below(s1, t, n) == next_below(s2, t, n),
    decreases n,
{
    if n > 0 {
        lemma_next_below_same(s1, s2, t, n - 1);
    }
}

/// Adding an event at the end leaves what the earlier events list unchanged.
pub proof fn lemma_listed_prefix(trace: Seq<SimEvent>, ev: SimEvent, b: int, k: int)
    requires
        0 <= b <= trace.len(),
    ensures
        listed_before(trace.push(ev), b, k) == listed_before(trace, b, k),
{
    let tr2 = trace.push(ev);
    if listed_before(tr2, b, k) {
        let e = choose|e: int| 0 <= e < b && #[trigger] starts_task(tr2, e, k);
        assert(tr2[e] == trace[e]);
        assert(starts_task(trace, e, k));
    }
    if listed_before(trace, b, k) {
        let e = choose|e: int| 0 <= e < b && #[trigger] starts_task(trace, e, k);
        assert(tr2[e] == trace[e]);
        assert(starts_task(tr2, e, k));
    }
}

/// A task listed as started in a faithful trace has been started.
pub proof fn lemma_listed_started(server: Amounts, s: Seq<Task>, trace: Seq<SimEvent>, b: int, k: int)
    requires
        trace_describes(server, s, trace),
        0 <= b <= trace.len(),
        listed_before(trace, b, k),
    ensures
        0 <= k < s.len(),
        s[k].time_in is Some,
{
    let e = choose|e: int| 0 <= e < b && #[trigger] starts_task(trace, e, k);
    assert(event_fits(server, s, trace, e));
}

/// With a faithful trace, the tasks it lists as started occupy exactly what runs.
pub proof fn lemma_used_listed_now(server: Amounts, s: Seq<Task>, trace: Seq<SimEvent>, time: int)
    requires
        trace_describes(server, s, trace),
    ensures
        used_listed(s, trace, trace.len() as int, time) == used_at(s, time),
{
    let n = s.len() as int;
    let b = trace.len() as int;
    assert forall|c: int| 0 <= c < 3 implies sum_below(n, #[trigger] used_listed_term(s, trace, b, time, c))
        == used_component(s, time, c) by {
        let f = used_listed_term(s, trace, b, time, c);
        let g = used_term(s, time, c);
        assert forall|k: int| 0 <= k < n implies #[trigger] f(k) == g(k) by {
            if listed_before(trace, b, k) {
                lemma_listed_started(server, s, trace, b, k);
            }
            if task_running(s[k], time) {
                assert(s[k].time_in is Some);
            }
        }
        lemma_sum_ext(n, f, g);
    }
    assert(sum_below(n, used_listed_term(s, trace, b, time, 0)) == used_component(s, time, 0));
    assert(sum_below(n, used_listed_term(s, trace, b, time, 1)) == used_component(s, time, 1));
    assert(sum_below(n, used_listed_term(s, trace, b, time, 2)) == used_component(s, time, 2));
}

/// Recording a step other than a start keeps a trace faithful, when the
/// step itself fits the schedule.
pub proof fn lemma_trace_push(server: Amounts, s: Seq<Task>, trace: Seq<SimEvent>, ev: SimEvent)
    requires
        trace_describes(server, s, trace),
        !(ev is Start),
        event_fits(server, s, trace.push(ev), trace.len() as int),
    ensures
        trace_describes(server, s, trace.push(ev)),
{
    let tr2 = trace.push(ev);
    let len = trace.len() as int;
    let n = s.len() as int;
    assert forall|e: int| 0 <= e < tr2.len() implies #[trigger] event_fits(server, s, tr2, e) by {
        if e < len {
            assert(tr2[e] == trace[e]);
            assert(event_fits(server, s, trace, e));
            if let SimEvent::Capacity { time, capacity } = trace[e] {
                assert forall|c: int| 0 <= c < 3 implies sum_below(n, #[trigger] used_listed_term(s, tr2, e, time as int, c))
                    == sum_below(n, used_listed_term(s, trace, e, time as int, c)) by {
                    let f = used_listed_term(s, tr2, e, time as int, c);
                    let g = used_listed_term(s, trace, e, time as int, c);
                    assert forall|k: int| 0 <= k < n implies #[trigger] f(k) == g(k) by {
                        lemma_listed_prefix(trace, ev, e, k);
                    }
                    lemma_sum_ext(n, f, g);
                }
                assert(used_listed(s, tr2, e, time as int) == used_listed(s, trace, e, time as int)) by {
                    assert(sum_below(n, used_listed_term(s, tr2, e, time as int, 0)) == sum_below(n, used_listed_term(s, trace, e, time as int, 0)));
                    assert(sum_below(n, used_listed_term(s, tr2, e, time as int, 1)) == sum_below(n, used_listed_term(s, trace, e, time as int, 1)));
                    assert(sum_below(n, used_listed_term(s, tr2, e, time as int, 2)) == sum_below(n, used_listed_term(s, trace, e, time as int, 2)));
                }
            }
        }
    }
    assert forall|k: int| 0 <= k < n && (#[trigger] s[k]).time_in is Some implies listed_before(tr2, tr2.len() as int, k) by {
        assert(listed_before(trace, len, k));
        let e = choose|e: int| 0 <= e < len && #[trigger] starts_task(trace, e, k);
        assert(tr2[e] == trace[e]);
        assert(starts_task(tr2, e, k));
    }
    assert forall|a: int, b: int, k: int|
        0 <= a < tr2.len() && 0 <= b < tr2.len() && #[trigger] starts_task(tr2, a, k)
            && #[trigger] starts_task(tr2, b, k) implies a == b by {
        assert(a < len && b < len);
        assert(tr2[a] == trace[a] && tr2[b] == trace[b]);
        assert(starts_task(trace, a, k) && starts_task(trace, b, k));
    }
}

/// Recording the start of pending task `m` at `t` keeps a trace faithful,
/// when every earlier clock move was from a time before `t`.
pub proof fn lemma_trace_start(server: Amounts, s: Seq<Task>, trace: Seq<SimEvent>, m: usize, t: usize)
    requires
        trace_describes(server, s, trace),
        0 <= m < s.len(),
        task_pending(s[m as int]),
        forall|e: int| 0 <= e < trace.len() ==> event_time(#[trigger] trace[e]) <= t,
        forall|e: int| 0 <= e < trace.len() && (#[trigger] trace[e] is Advance) ==> event_time(trace[e]) < t,
    ensures
        trace_describes(server, start_task(s, m as int, t), trace.push(SimEvent::Start { time: t, index: m })),
{
    let s2 = start_task(s, m as int, t);
    let ev = SimEvent::Start { time: t, index: m };
    let tr2 = trace.push(ev);
    let len = trace.len() as int;
    let n = s.len() as int;
    assert forall|e: int| 0 <= e < tr2.len() implies #[trigger] event_fits(server, s2, tr2, e) by {
        if e < len {
            assert(tr2[e] == trace[e]);
            assert(event_fits(server, s, trace, e));
            match trace[e] {
                SimEvent::Capacity { time, capacity } => {
                    assert forall|c: int| 0 <= c < 3 implies sum_below(n, #[trigger] used_listed_term(s2, tr2, e, time as int, c))
                        == sum_below(n, used_listed_term(s, trace, e, time as int, c)) by {
                        let f = used_listed_term(s2, tr2, e, time as int, c);
                        let g = used_listed_term(s, trace, e, time as int, c);
                        assert forall|k: int| 0 <= k < n implies #[trigger] f(k) == g(k) by {
                            lemma_listed_prefix(trace, ev, e, k);
                            if listed_before(trace, e, k) {
                                lemma_listed_started(server, s, trace, e, k);
                            }
                        }
                        lemma_sum_ext(n, f, g);
                    }
                    assert(sum_below(n, used_listed_term(s2, tr2, e, time as int, 0)) == sum_below(n, used_listed_term(s, trace, e, time as int, 0)));
                    assert(sum_below(n, used_listed_term(s2, tr2, e, time as int, 1)) == sum_below(n, used_listed_term(s, trace, e, time as int, 1)));
                    assert(sum_below(n, used_listed_term(s2, tr2, e, time as int, 2)) == sum_below(n, used_listed_term(s, trace, e, time as int, 2)));
                },
                SimEvent::Start { time, index } => {
                    assert(index != m);
                },
                SimEvent::Advance { from, to } => {
                    assert(from < t);
                    assert forall|j: int| 0 <= j < n implies task_running(#[trigger] s2[j], from as int) == task_running(s[j], from as int) by {}
                    lemma_next_below_same(s2, s, from as int, n);
                },
                SimEvent::Continue { time } => {
                    let k = choose|k: int|
                        0 <= k < n && (task_pending(#[trigger] s[k]) || s[k].time_in->0 >= time
                            || task_running(s[k], time as int));
                    assert(task_pending(s2[k]) || s2[k].time_in->0 >= time || task_running(s2[k], time as int));
                },
            }
        }
    }
    assert forall|k: int| 0 <= k < n && (#[trigger] s2[k]).time_in is Some implies listed_before(tr2, tr2.len() as int, k) by {
        if k == m {
            assert(starts_task(tr2, len, k));
        } else {
            assert(listed_before(trace, len, k));
            let e = choose|e: int| 0 <= e < len && #[trigger] starts_task(trace, e, k);
            assert(tr2[e] == trace[e]);
            assert(starts_task(tr2, e, k));
        }
    }
    assert forall|a: int, b: int, k: int|
        0 <= a < tr2.len() && 0 <= b < tr2.len() && #[trigger] starts_task(tr2, a, k)
            && #[trigger] starts_task(tr2, b, k) implies a == b by {
        if a < len && b < len {
            assert(tr2[a] == trace[a] && tr2[b] == trace[b]);
            assert(starts_task(trace, a, k) && starts_task(trace, b, k));
        } else if a < len {
            assert(tr2[a] == trace[a]);
            assert(starts_task(trace, a, k));
            assert(k == m);
            assert(event_fits(server, s, trace, a));
        } else if b < len {
            assert(tr2[b] == trace[b]);
            assert(starts_task(trace, b, k));
            assert(k == m);
            assert(event_fits(server, s, trace, b));
        }
    }
}

/// Recording what the running tasks leave free at `t` keeps a trace faithful.
pub proof fn lemma_trace_capacity(server: Amounts, s: Seq<Task>, trace: Seq<SimEvent>, t: usize, capacity: Resource)
    requires
        trace_describes(server, s, trace),
        capacity@ == amounts_sub(server, used_at(s, t as int)),
    ensures
        trace_describes(server, s, trace.push(SimEvent::Capacity { time: t, capacity })),
{
    let ev = SimEvent::Capacity { time: t, capacity };
    let tr2 = trace.push(ev);
    let len = trace.len() as int;
    let n = s.len() as int;
    lemma_used_listed_now(server, s, trace, t as int);
    assert forall|c: int| 0 <= c < 3 implies sum_below(n, #[trigger] used_listed_term(s, tr2, len, t as int, c))
        == sum_below(n, used_listed_term(s, trace, len, t as int, c)) by {
        let f = used_listed_term(s, tr2, len, t as int, c);
        let g = used_listed_term(s, trace, len, t as int, c);
        assert forall|k: int| 0 <= k < n implies #[trigger] f(k) == g(k) by {
            lemma_listed_prefix(trace, ev, len, k);
        }
        lemma_sum_ext(n, f, g);
    }
    assert(sum_below(n, used_listed_term(s, tr2, len, t as int, 0)) == sum_below(n, used_listed_term(s, trace, len, t as int, 0)));
    assert(sum_below(n, used_listed_term(s, tr2, len, t as int, 1)) == sum_below(n, used_listed_term(s, trace, len, t as int, 1)));
    assert(sum_below(n, used_listed_term(s, tr2, len, t as int, 2)) == sum_below(n, used_listed_term(s, trace, len, t as int, 2)));
    assert(event_fits(server, s, tr2, len));
    lemma_trace_push(server, s, trace, ev);
}

/// When the same tasks run at two times, the same is occupied.
pub proof fn lemma_used_same(s: Seq<Task>, t1: int, t2: int)
    requires
        forall|j: int| 0 <= j < s.len() ==> task_running(#[trigger] s[j], t1) == task_running(s[j], t2),
    ensures
        used_at(s, t1) == used_at(s, t2),
{
    let n = s.len() as int;
    assert forall|k: int| 0 <= k < 3 implies used_component(s, t1, k) == used_component(s, t2, k) by {
        let f = used_term(s, t1, k);
        let g = used_term(s, t2, k);
        assert forall|j: int| 0 <= j < n implies #[trigger] f(j) == g(j) by {
            assert(task_running(s[j], t1) == task_running(s[j], t2));
        }
        lemma_sum_ext(n, f, g);
    }
    assert(used_component(s, t1, 0) == used_component(s, t2, 0));
    assert(used_component(s, t1, 1) == used_component(s, t2, 1));
    assert(used_component(s, t1, 2) == used_component(s, t2, 2));
}

/// Component `k` of the sums that one round of starting tasks at `t` adds
/// up stays within `i32`: either because the sizes fit, or because no need
/// is negative and what runs at `t` does not exceed the server.
proof fn lemma_round_sums_fit_component(server: Resource, s: Seq<Task>, tasks: Seq<Task>, t: int, k: int)
    requires
        0 <= k < 3,
        s.len() == tasks.len(),
        forall|i: int| 0 <= i < s.len() ==> same_job(#[trigger] s[i], tasks[i]),
        forall|i: int|
            0 <= i < tasks.len() ==> amounts_nonneg(amounts_sub(server@, (#[trigger] tasks[i]).resource@)),
        needs_nonneg(tasks) || sizes_fit(server, tasks),
        needs_nonneg(tasks) ==> amounts_le(used_at(s, t), server@),
    ensures
        forall|m: int| 0 <= m <= s.len() ==> fits_i32(#[trigger] sum_below(m, used_term(s, t, k))),
        fits_i32(-used_component(s, t, k)),
        fits_i32(component(server@, k) - used_component(s, t, k)),
        forall|i: int|
            0 <= i < s.len() && task_pending(#[trigger] s[i]) ==> fits_i32(-component(s[i].resource@, k))
                && fits_i32(component(server@, k) - used_component(s, t, k) - component(s[i].resource@, k)),
{
    let n = s.len() as int;
    let f = used_term(s, t, k);
    lemma_same_jobs_totals(s, tasks);
    if needs_nonneg(tasks) {
        assert forall|j: int| 0 <= j < n implies 0 <= #[trigger] f(j) by {
            assert(same_job(s[j], tasks[j]));
            assert(amounts_nonneg(tasks[j].resource@));
        }
        assert(used_component(s, t, k) <= component(server@, k)) by {
            assert(amounts_le(used_at(s, t), server@));
        }
        assert forall|m: int| 0 <= m <= n implies fits_i32(#[trigger] sum_below(m, used_term(s, t, k))) by {
            lemma_sum_nonneg(m, f);
            lemma_sum_prefix(m, n, f);
        }
        lemma_sum_nonneg(n, f);
        assert forall|i: int| 0 <= i < n && task_pending(#[trigger] s[i]) implies fits_i32(
            -component(s[i].resource@, k),
        ) && fits_i32(component(server@, k) - used_component(s, t, k) - component(s[i].resource@, k)) by {
            assert(same_job(s[i], tasks[i]));
            assert(amounts_nonneg(tasks[i].resource@));
            assert(amounts_nonneg(amounts_sub(server@, tasks[i].resource@)));
        }
    } else {
        assert(abs(component(server@, k)) + abs_total(tasks, k) <= i32::MAX);
        assert forall|m: int| 0 <= m <= n implies fits_i32(#[trigger] sum_below(m, used_term(s, t, k))) by {
            lemma_used_size_any(s, t, k, m);
        }
        lemma_used_size_any(s, t, k, n);
        assert forall|i: int| 0 <= i < n && task_pending(#[trigger] s[i]) implies fits_i32(
            -component(s[i].resource@, k),
        ) && fits_i32(component(server@, k) - used_component(s, t, k) - component(s[i].resource@, k)) by {
            lemma_used_size(s, t, k, i);
        }
    }
}

/// The sums that one round of starting tasks at `t` adds up stay within `i32`.
proof fn lemma_round_sums_fit(server: Resource, s: Seq<Task>, tasks: Seq<Task>, t: int)
    requires
        s.len() == tasks.len(),
        forall|i: int| 0 <= i < s.len() ==> same_job(#[trigger] s[i], tasks[i]),
        forall|i: int|
            0 <= i < tasks.len() ==> amounts_nonneg(amounts_sub(server@, (#[trigger] tasks[i]).resource@)),
        needs_nonneg(tasks) || sizes_fit(server, tasks),
        needs_nonneg(tasks) ==> amounts_le(used_at(s, t), server@),
    ensures
        running_sums_fit(s, t),
        fits_i32(-used_at(s, t).0),
        fits_i32(-used_at(s, t).1),
        fits_i32(-used_at(s, t).2),
        fits_i32(server@.0 - used_at(s, t).0),
        fits_i32(server@.1 - used_at(s, t).1),
        fits_i32(server@.2 - used_at(s, t).2),
        forall|i: int|
            0 <= i < s.len() && task_pending(#[trigger] s[i]) ==> {
                &&& fits_i32(-s[i].resource@.0)
                &&& fits_i32(-s[i].resource@.1)
                &&& fits_i32(-s[i].resource@.2)
                &&& fits_i32(server@.0 - used_at(s, t).0 - s[i].resource@.0)
                &&& fits_i32(server@.1 - used_at(s, t).1 - s[i].resource@.1)
                &&& fits_i32(server@.2 - used_at(s, t).2 - s[i].resource@.2)
            },
{
    lemma_round_sums_fit_component(server, s, tasks, t, 0);
    lemma_round_sums_fit_component(server, s, tasks, t, 1);
    lemma_round_sums_fit_component(server, s, tasks, t, 2);
    assert forall|m: int, k: int| 0 <= m <= s.len() && 0 <= k < 3 implies fits_i32(
        #[trigger] sum_below(m, used_term(s, t, k)),
    ) by {
        if k == 0 {
        } else if k == 1 {
        } else {
        }
    }
}

// ---------------------------------------------------------------------------
// Executable pieces
// ---------------------------------------------------------------------------

/// What the tasks running at `t` occupy together, added up in list order.
fn used_resources(tasks: &Vec<Task>, t: usize) -> (used: Resource)
    requires
        forall|j: int| 0 <= j < tasks.len() ==> end_representable_at(#[trigger] tasks[j], t as int),
        running_sums_fit(tasks@, t as int),
    ensures
        used@ == used_at(tasks@, t as int),
{
    let mut acc = Resource::zero();
    let mut i: usize = 0;
    while i < tasks.len()
        invariant
            i <= tasks.len(),
            forall|j: int| 0 <= j < tasks.len() ==> end_representable_at(#[trigger] tasks[j], t as int),
            running_sums_fit(tasks@, t as int),
            acc@ == (
                sum_below(i as int, used_term(tasks@, t as int, 0)),
                sum_below(i as int, used_term(tasks@, t as int, 1)),
                sum_below(i as int, used_term(tasks@, t as int, 2)),
            ),
        decreases tasks.len() - i,
    {
        if tasks[i].is_running(t) {
            proof {
                assert(fits_i32(sum_below(i + 1, used_term(tasks@, t as int, 0))));
                assert(fits_i32(sum_below(i + 1, used_term(tasks@, t as int, 1))));
                assert(fits_i32(sum_below(i + 1, used_term(tasks@, t as int, 2))));
            }
            acc = acc.add(&tasks[i].resource);
        }
        i = i + 1;
    }
    acc
}

/// The first task, in list order, that can start at `t` given what is left
/// of the server (`capacity`).
fn first_fitting(tasks: &Vec<Task>, capacity: &Resource, Ghost(server): Ghost<Amounts>, t: usize) -> (found: Option<usize>)
    requires
        capacity@ == amounts_sub(server, used_at(tasks@, t as int)),
        forall|i: int|
            0 <= i < tasks.len() && task_pending(#[trigger] tasks[i]) ==> {
                &&& fits_i32(-tasks[i].resource@.0)
                &&& fits_i32(-tasks[i].resource@.1)
                &&& fits_i32(-tasks[i].resource@.2)
                &&& fits_i32(capacity@.0 - tasks[i].resource@.0)
                &&& fits_i32(capacity@.1 - tasks[i].resource@.1)
                &&& fits_i32(capacity@.2 - tasks[i].resource@.2)
            },
    ensures
        match found {
            Some(i) => first_fit_from(server, tasks@, t as int, 0) == Some(i as int),
            None => first_fit_from(server, tasks@, t as int, 0) == None::<int>,
        },
{
    let mut i: usize = 0;
    while i < tasks.len()
        invariant
            i <= tasks.len(),
            first_fit_from(server, tasks@, t as int, 0) == first_fit_from(server, tasks@, t as int, i as int),
            capacity@ == amounts_sub(server, used_at(tasks@, t as int)),
            forall|i: int|
                0 <= i < tasks.len() && task_pending(#[trigger] tasks[i]) ==> {
                    &&& fits_i32(-tasks[i].resource@.0)
                    &&& fits_i32(-tasks[i].resource@.1)
                    &&& fits_i32(-tasks[i].resource@.2)
                    &&& fits_i32(capacity@.0 - tasks[i].resource@.0)
                    &&& fits_i32(capacity@.1 - tasks[i].resource@.1)
                    &&& fits_i32(capacity@.2 - tasks[i].resource@.2)
                },
        decreases tasks.len() - i,
    {
        if tasks[i].is_pending() {
            let left = capacity.sub(&tasks[i].resource);
            if left.is_nonnegative() {
                return Some(i);
            }
        }
        i = i + 1;
    }
    None
}

/// The earliest end among the tasks running at `t`, or `usize::MAX`.
fn next_event(tasks: &Vec<Task>, t: usize) -> (t1: usize)
    requires
        forall|j: int|
            0 <= j < tasks.len() && (#[trigger] tasks[j]).time_in is Some ==> task_end(tasks[j]) <= usize::MAX,
    ensures
        t1 == next_time(tasks@, t as int),
{
    let mut best: usize = usize::MAX;
    let mut i: usize = 0;
    while i < tasks.len()
        invariant
            i <= tasks.len(),
            forall|j: int|
                0 <= j < tasks.len() && (#[trigger] tasks[j]).time_in is Some ==> task_end(tasks[j]) <= usize::MAX,
            best == next_below(tasks@, t as int, i as int),
        decreases tasks.len() - i,
    {
        if tasks[i].is_running(t) {
            match tasks[i].time_in {
                Some(v) => {
                    let end = tasks[i].time_span + v;
                    if end < best {
                        best = end;
                    }
                },
                None => {},
            }
        }
        i = i + 1;
    }
    best
}

/// Whether every task is finished at `t`.
fn all_done(tasks: &Vec<Task>, t: usize) -> (b: bool)
    requires
        forall|j: int| 0 <= j < tasks.len() ==> end_representable_at(#[trigger] tasks[j], t as int),
    ensures
        b == all_finished(tasks@, t as int),
{
    let mut i: usize = 0;
    while i < tasks.len()
        invariant
            i <= tasks.len(),
            forall|j: int| 0 <= j < tasks.len() ==> end_representable_at(#[trigger] tasks[j], t as int),
            forall|j: int| 0 <= j < i ==> task_finished(#[trigger] tasks@[j], t as int),
        decreases tasks.len() - i,
    {
        if !tasks[i].is_finished(t) {
            return false;
        }
        i = i + 1;
    }
    true
}

impl Server {
    /// Runs the tasks on this server. At each point in time it starts, again
    /// and again, the first pending task in list order whose needs fit in
    /// what the running tasks leave free, until none fits; then the clock
    /// jumps to the earliest end of a running task. It stops once every task
    /// is finished, and returns the tasks with their start times.
    pub fn simulate(&self, tasks: Vec<Task>) -> (result: Vec<Task>)
        requires
            simulation_admissible(self.resource, tasks@),
        ensures
            result@ == simulation(self.resource, tasks@),
            result.len() == tasks.len(),
            forall|i: int| 0 <= i < result.len() ==> same_job(#[trigger] result[i], tasks[i]),
            forall|i: int| 0 <= i < result.len() ==> (#[trigger] result[i]).time_in is Some,
            forall|i: int| 0 <= i < result.len() ==> task_end(#[trigger] result[i]) <= span_total(tasks@),
            forall|i: int| 0 <= i < result.len() ==> #[trigger] starts_at_event(result@, i),
            forall|time: int| 0 <= time && work_left_at(result@, time) ==> #[trigger] busy_at(result@, time),
            forall|i: int, time: int|
                0 <= i < result.len() && 0 <= time < result[i].time_in->0 ==> !#[trigger] fits_at(
                    self.resource@,
                    result@,
                    time,
                    i,
                ),
            needs_nonneg(tasks@) && tasks.len() > 0 ==> forall|time: int|
                amounts_le(#[trigger] used_at(result@, time), self.resource@),
            needs_nonneg(tasks@) ==> forall|i: int, j: int|
                0 <= i < j < result.len() && result[j].time_in->0 < result[i].time_in->0
                    ==> !#[trigger] fits_before(self.resource@, result@, j, i),
    {
        let (result, _events) = self.simulate_traced(tasks);
        result
    }

    /// `simulate`, also returning the steps it took: what is left free each
    /// time it looks for a task to start, each start, each move of the clock,
    /// and each time it goes on because work is left.
    #[verifier::rlimit(80)]
    pub fn simulate_traced(&self, tasks: Vec<Task>) -> (result: (Vec<Task>, Vec<SimEvent>))
        requires
            simulation_admissible(self.resource, tasks@),
        ensures
            result.0@ == simulation(self.resource, tasks@),
            result.0.len() == tasks.len(),
            forall|i: int| 0 <= i < result.0.len() ==> same_job(#[trigger] result.0[i], tasks[i]),
            forall|i: int| 0 <= i < result.0.len() ==> (#[trigger] result.0[i]).time_in is Some,
            forall|i: int| 0 <= i < result.0.len() ==> task_end(#[trigger] result.0[i]) <= span_total(tasks@),
            forall|i: int| 0 <= i < result.0.len() ==> #[trigger] starts_at_event(result.0@, i),
            forall|time: int| 0 <= time && work_left_at(result.0@, time) ==> #[trigger] busy_at(result.0@, time),
            forall|i: int, time: int|
                0 <= i < result.0.len() && 0 <= time < result.0[i].time_in->0 ==> !#[trigger] fits_at(
                    self.resource@,
                    result.0@,
                    time,
                    i,
                ),
            needs_nonneg(tasks@) && tasks.len() > 0 ==> forall|time: int|
                amounts_le(#[trigger] used_at(result.0@, time), self.resource@),
            needs_nonneg(tasks@) ==> forall|i: int, j: int|
                0 <= i < j < result.0.len() && result.0[j].time_in->0 < result.0[i].time_in->0
                    ==> !#[trigger] fits_before(self.resource@, result.0@, j, i),
            result.1@ == simulation_trace(self.resource, tasks@),
            trace_describes(self.resource@, result.0@, result.1@),
    {
        let ghost server = self.resource@;
        let ghost n = tasks.len() as int;
        let ghost nn = needs_nonneg(tasks@);
        let mut v = tasks;
        let mut events: Vec<SimEvent> = Vec::new();
        let ghost total = simulation_trace(self.resource, tasks@);
        if v.len() == 0 {
            // Nothing to start: what is left is the whole server, and the
            // clock moves straight to the end of time.
            let idle = Resource::zero();
            let capacity = self.resource.sub(&idle);
            proof {
                assert(v@ == admit_all(server, v@, 0, 0));
                assert(used_at(v@, 0) == zero_amounts());
                assert(capacity == capacity_left(self.resource, v@, 0));
                lemma_trace_capacity(server, v@, events@, 0, capacity);
            }
            events.push(SimEvent::Capacity { time: 0, capacity });
            proof {
                let ev = SimEvent::Advance { from: 0, to: usize::MAX };
                assert(event_fits(server, v@, events@.push(ev), events.len() as int));
                lemma_trace_push(server, v@, events@, ev);
            }
            events.push(SimEvent::Advance { from: 0, to: usize::MAX });
            proof {
                assert(events@ =~= total);
            }
            return (v, events);
        }
        let mut t: usize = 0;
        let ghost mut k: int = 0;
        proof {
            assert(events@ + sim_trace(self.resource, v@, t, (n + 1 - k) as nat) =~= total);
            lemma_count_bounds(n, unfinished_pred(v@, 0));
            let f = started_span_term(v@);
            assert forall|j: int| 0 <= j < n implies #[trigger] f(j) == 0 by {
                assert(task_pending(tasks@[j]));
            }
            lemma_sum_zero(n, f);
            assert forall|time: int| nn && time <= 0 implies amounts_le(#[trigger] used_at(v@, time), server) by {
                assert forall|j: int| 0 <= j < v.len() implies !task_running(#[trigger] v@[j], time) by {
                    assert(task_pending(tasks@[j]));
                }
                lemma_used_idle(v@, time);
                assert(amounts_nonneg(tasks@[0].resource@));
                assert(amounts_nonneg(amounts_sub(server, tasks@[0].resource@)));
            }
        }
        loop
            invariant_except_break
                v.len() == n,
                0 <= k,
                forall|i: int| 0 <= i < n ==> same_job(#[trigger] v@[i], tasks@[i]),
                sim_rounds(server, v@, t, (n + 1 - k) as nat) == simulation(self.resource, tasks@),
                unfinished_count(v@, t as int) + k <= n,
                forall|i: int|
                    0 <= i < n && (#[trigger] v@[i]).time_in is Some ==> v@[i].time_in->0 <= t
                        && task_end(v@[i]) <= started_span_total(v@),
                t <= started_span_total(v@),
                nn ==> forall|time: int| time <= t ==> amounts_le(#[trigger] used_at(v@, time), server),
                forall|i: int| 0 <= i < n && (#[trigger] v@[i]).time_in is Some ==> starts_at_event(v@, i),
                is_event_time(v@, t as int),
                forall|time: int| 0 <= time < t ==> #[trigger] busy_at(v@, time),
                forall|i: int, time: int|
                    0 <= i < n && 0 <= time < t && (task_pending(v@[i]) || time < v@[i].time_in->0)
                        ==> !#[trigger] fits_at(server, v@, time, i),
                forall|i: int| 0 <= i < n && (#[trigger] v@[i]).time_in is Some ==> v@[i].time_in->0 < t,
                nn ==> forall|i: int, j: int|
                    0 <= i < j < n && v@[j].time_in is Some && (task_pending(v@[i]) || v@[j].time_in->0
                        < v@[i].time_in->0) ==> !#[trigger] fits_before(server, v@, j, i),
                trace_describes(server, v@, events@),
                forall|e: int| 0 <= e < events.len() ==> event_time(#[trigger] events@[e]) <= t,
                forall|e: int| 0 <= e < events.len() && (#[trigger] events@[e] is Advance) ==> event_time(events@[e]) < t,
                events@ + sim_trace(self.resource, v@, t, (n + 1 - k) as nat) == total,
            invariant
                server == self.resource@,
                n == tasks.len(),
                n > 0,
                nn == needs_nonneg(tasks@),
                simulation_admissible(self.resource, tasks@),
                total == simulation_trace(self.resource, tasks@),
            ensures
                events@ == total,
                trace_describes(server, v@, events@),
                v@ == simulation(self.resource, tasks@),
                v.len() == n,
                forall|i: int| 0 <= i < n ==> same_job(#[trigger] v@[i], tasks@[i]),
                forall|i: int| 0 <= i < n ==> (#[trigger] v@[i]).time_in is Some,
                forall|i: int| 0 <= i < n ==> task_end(#[trigger] v@[i]) <= span_total(tasks@),
                nn ==> forall|time: int| amounts_le(#[trigger] used_at(v@, time), server),
                forall|i: int| 0 <= i < n ==> #[trigger] starts_at_event(v@, i),
                forall|time: int| 0 <= time && work_left_at(v@, time) ==> #[trigger] busy_at(v@, time),
                forall|i: int, time: int|
                    0 <= i < n && 0 <= time < v@[i].time_in->0 ==> !#[trigger] fits_at(server, v@, time, i),
                nn ==> forall|i: int, j: int|
                    0 <= i < j < n && v@[j].time_in->0 < v@[i].time_in->0 ==> !#[trigger] fits_before(
                        server,
                        v@,
                        j,
                        i,
                    ),
            decreases unfinished_count(v@, t as int),
        {
            let ghost before = v@;
            proof {
                lemma_same_jobs_totals(v@, tasks@);
                let f = started_span_term(v@);
                let g = span_term(v@);
                assert forall|j: int| 0 <= j < n implies #[trigger] f(j) <= g(j) by {}
                lemma_sum_mono(n, f, g);
            }
            let ghost done = events@;
            let ghost mut j: int = 0;
            let ghost mut floor: int = 0;
            proof {
                lemma_count_bounds(n, pending_pred(v@));
            }
            // Start what can start now.
            loop
                invariant_except_break
                    events@ + admit_trace(self.resource, v@, t, (n - j) as nat) == done + admit_trace(
                        self.resource,
                        before,
                        t,
                        n as nat,
                    ),
                invariant
                    server == self.resource@,
                    n == tasks.len(),
                    n > 0,
                    nn == needs_nonneg(tasks@),
                    simulation_admissible(self.resource, tasks@),
                    v.len() == n,
                    0 <= j,
                    forall|i: int| 0 <= i < n ==> same_job(#[trigger] v@[i], tasks@[i]),
                    forall|i: int| 0 <= i < n ==> same_job(#[trigger] v@[i], before[i]),
                    forall|i: int| 0 <= i < n && task_pending(#[trigger] v@[i]) ==> task_pending(before[i]),
                    admit_all(server, v@, t, (n - j) as nat) == admit_all(server, before, t, n as nat),
                    pending_count(v@) + j <= n,
                    0 <= pending_count(v@),
                    unfinished_count(v@, t as int) <= unfinished_count(before, t as int),
                    forall|i: int|
                        0 <= i < n && (#[trigger] v@[i]).time_in is Some ==> v@[i].time_in->0 <= t
                            && task_end(v@[i]) <= started_span_total(v@),
                    t <= started_span_total(v@),
                    started_span_total(v@) <= span_total(tasks@),
                    nn ==> forall|time: int| time <= t ==> amounts_le(#[trigger] used_at(v@, time), server),
                    forall|i: int| 0 <= i < n && (#[trigger] v@[i]).time_in is Some ==> starts_at_event(v@, i),
                    is_event_time(v@, t as int),
                    forall|time: int| 0 <= time < t ==> #[trigger] busy_at(v@, time),
                    forall|i: int, time: int|
                        0 <= i < n && 0 <= time < t && (task_pending(v@[i]) || time < v@[i].time_in->0)
                            ==> !#[trigger] fits_at(server, v@, time, i),
                    0 <= floor <= n,
                    forall|x: int| 0 <= x < n && (#[trigger] v@[x]).time_in == Some(t) ==> x < floor,
                    nn ==> forall|x: int| 0 <= x < floor && task_pending(#[trigger] v@[x]) ==> !fits_at(server, v@, t as int, x),
                    nn ==> forall|i: int, j: int|
                        0 <= i < j < n && v@[j].time_in is Some && (task_pending(v@[i]) || v@[j].time_in->0
                            < v@[i].time_in->0) ==> !#[trigger] fits_before(server, v@, j, i),
                    trace_describes(server, v@, events@),
                    forall|e: int| 0 <= e < events.len() ==> event_time(#[trigger] events@[e]) <= t,
                    forall|e: int| 0 <= e < events.len() && (#[trigger] events@[e] is Advance) ==> event_time(events@[e]) < t,
                ensures
                    first_fit_from(server, v@, t as int, 0) is None,
                    events@ == done + admit_trace(self.resource, before, t, n as nat),
                decreases pending_count(v@),
            {
                proof {
                    lemma_same_jobs_totals(v@, tasks@);
                    lemma_round_sums_fit(self.resource, v@, tasks@, t as int);
                }
                let used = used_resources(&v, t);
                let capacity = self.resource.sub(&used);
                let ghost events_before = events@;
                proof {
                    lemma_trace_capacity(server, v@, events@, t, capacity);
                    assert(capacity == capacity_left(self.resource, v@, t as int));
                }
                events.push(SimEvent::Capacity { time: t, capacity });
                match first_fitting(&v, &capacity, Ghost(server), t) {
                    None => {
                        proof {
                            assert(admit_trace(self.resource, v@, t, (n - j) as nat) =~= seq![
                                SimEvent::Capacity { time: t, capacity },
                            ]);
                            assert(events@ =~= events_before + admit_trace(self.resource, v@, t, (n - j) as nat));
                        }
                        break;
                    },
                    Some(i) => {
                        let ghost prev = v@;
                        proof {
                            lemma_first_fit(server, prev, t as int, 0);
                            lemma_start_effects(prev, i as int, t);
                        }
                        let ghost prev_events = events@;
                        proof {
                            lemma_trace_start(server, prev, prev_events, i, t);
                        }
                        v[i].run(t);
                        events.push(SimEvent::Start { time: t, index: i });
                        proof {
                            assert(v@ =~= start_task(prev, i as int, t));
                            assert(pending_count(prev) > 0);
                            assert(admit_trace(self.resource, prev, t, (n - j) as nat) =~= seq![
                                SimEvent::Capacity { time: t, capacity },
                                SimEvent::Start { time: t, index: i },
                            ] + admit_trace(self.resource, v@, t, (n - j - 1) as nat));
                            assert(events@ + admit_trace(self.resource, v@, t, (n - j - 1) as nat) =~= events_before
                                + admit_trace(self.resource, prev, t, (n - j) as nat));
                            j = j + 1;
                            assert(task_end(v@[i as int]) <= started_span_total(v@));
                            assert forall|x: int| 0 <= x < n && (#[trigger] v@[x]).time_in is Some
                                implies starts_at_event(v@, x) by {
                                if x == i as int {
                                    if t != 0 {
                                        let w = choose|y: int|
                                            0 <= y < n && (#[trigger] prev[y]).time_in is Some && prev[y].time_span > 0
                                                && task_end(prev[y]) == t;
                                        assert(v@[w] == prev[w]);
                                    }
                                } else {
                                    assert(prev[x] == v@[x]);
                                    assert(starts_at_event(prev, x));
                                    if prev[x].time_in->0 != 0 {
                                        let w = choose|y: int|
                                            0 <= y < n && y != x && (#[trigger] prev[y]).time_in is Some
                                                && prev[y].time_span > 0 && task_end(prev[y])
                                                == prev[x].time_in->0;
                                        assert(v@[w] == prev[w]);
                                    }
                                }
                            }
                            if t != 0 {
                                let w = choose|y: int|
                                    0 <= y < n && (#[trigger] prev[y]).time_in is Some && prev[y].time_span > 0
                                        && task_end(prev[y]) == t;
                                assert(v@[w] == prev[w]);
                            }
                            assert forall|time: int| 0 <= time < t implies #[trigger] busy_at(v@, time) by {
                                assert(busy_at(prev, time));
                                let w = choose|y: int| 0 <= y < n && task_running(#[trigger] prev[y], time);
                                assert(v@[w] == prev[w]);
                            }
                            assert forall|x: int, time: int|
                                0 <= x < n && 0 <= time < t && (task_pending(v@[x]) || time < v@[x].time_in->0)
                                    implies !#[trigger] fits_at(server, v@, time, x) by {
                                assert(used_at(v@, time) == used_at(prev, time));
                                assert(v@[x].resource == prev[x].resource);
                                assert(!fits_at(server, prev, time, x));
                            }
                            if nn {
                                assert forall|time: int| time <= t implies amounts_le(
                                    #[trigger] used_at(v@, time),
                                    server,
                                ) by {
                                    assert(amounts_le(used_at(prev, time), server));
                                    assert(amounts_nonneg(tasks@[i as int].resource@));
                                }
                            }
                            if nn {
                                // tasks that already waited at `t` still do not fit
                                assert forall|x: int| 0 <= x < floor && task_pending(#[trigger] prev[x])
                                    implies !can_start(server, prev, t as int, x) by {}
                                assert(i as int >= floor);
                                assert(amounts_nonneg(tasks@[i as int].resource@));
                                assert forall|x: int| 0 <= x < i + 1 && task_pending(#[trigger] v@[x])
                                    implies !fits_at(server, v@, t as int, x) by {
                                    assert(!can_start(server, prev, t as int, x));
                                    assert(v@[x].resource == prev[x].resource);
                                }
                                // the priority of earlier tasks
                                assert forall|x: int| 0 <= x < n implies (#[trigger] prev[x]).resource
                                    == v@[x].resource by {}
                                assert forall|x: int| 0 <= x < n implies task_running(#[trigger] prev[x], t as int)
                                    == (task_running(v@[x], t as int) && (v@[x].time_in->0 < t || x < i)) by {
                                    if x != i as int {
                                        assert(prev[x] == v@[x]);
                                    }
                                }
                                lemma_used_before_is_used(prev, v@, t as int, i as int);
                                assert forall|a: int, b: int|
                                    0 <= a < b < n && v@[b].time_in is Some && (task_pending(v@[a]) || v@[b].time_in->0
                                        < v@[a].time_in->0) implies !#[trigger] fits_before(server, v@, b, a) by {
                                    if b == i as int {
                                        assert(task_pending(prev[a]));
                                        assert(!can_start(server, prev, t as int, a));
                                    } else {
                                        let tb = prev[b].time_in->0 as int;
                                        assert forall|x: int| 0 <= x < n implies (task_running(#[trigger] v@[x], tb) && (
                                        v@[x].time_in->0 < tb || x < b)) == (task_running(prev[x], tb) && (
                                        prev[x].time_in->0 < tb || x < b)) by {
                                            if x != i as int {
                                                assert(prev[x] == v@[x]);
                                            }
                                        }
                                        lemma_used_before_same(v@, prev, tb, b);
                                        assert(!fits_before(server, prev, b, a));
                                    }
                                }
                            }
                            floor = if i + 1 > floor { i + 1 } else { floor };
                            lemma_same_jobs_totals(v@, tasks@);
                            let fs = started_span_term(v@);
                            let gs = span_term(v@);
                            assert forall|x: int| 0 <= x < n implies #[trigger] fs(x) <= gs(x) by {}
                            lemma_sum_mono(n, fs, gs);
                        }
                    },
                }
            }
            // Nothing more can start now; move the clock on.
            proof {
                lemma_same_jobs_totals(v@, tasks@);
            }
            let t1 = next_event(&v, t);
            let ghost t0 = t;
            proof {
                lemma_next_below(v@, t0 as int, n);
                lemma_first_fit(server, v@, t0 as int, 0);
                assert(v@ == admit_all(server, before, t0, n as nat));
                if forall|i: int| 0 <= i < n ==> !task_running(#[trigger] v@[i], t0 as int) {
                    // Idle server: every task has been started and has ended.
                    lemma_used_idle(v@, t0 as int);
                    assert forall|i: int| 0 <= i < n implies task_finished(#[trigger] v@[i], t1 as int) by {
                        if task_pending(v@[i]) {
                            assert(amounts_nonneg(amounts_sub(server, tasks@[i].resource@)));
                            assert(can_start(server, v@, t0 as int, i));
                        }
                    }
                    assert forall|time: int| 0 <= time && work_left_at(v@, time) implies #[trigger] busy_at(
                        v@,
                        time,
                    ) by {
                        let w = choose|y: int| 0 <= y < n && task_end(#[trigger] v@[y]) > time;
                        assert(!task_running(v@[w], t0 as int));
                    }
                } else {
                    let w = choose|i: int| 0 <= i < n && task_running(#[trigger] v@[i], t0 as int);
                    assert(task_running(v@[w], t0 as int));
                    let j0 = choose|j: int|
                        0 <= j < n && task_running(v@[j], t0 as int) && next_below(v@, t0 as int, n) == task_end(
                            #[trigger] v@[j],
                        );
                    // the task ending first no longer counts as unfinished
                    let u1 = unfinished_pred(v@, t1 as int);
                    let u0 = unfinished_pred(v@, t0 as int);
                    assert forall|i: int| 0 <= i < n && #[trigger] u1(i) implies u0(i) by {}
                    assert(u0(j0) && !u1(j0));
                    lemma_count_mono(n, u1, u0);
                    lemma_count_bounds(n, u1);
                    assert(is_event_time(v@, t1 as int));
                    // between now and the next event the same tasks run
                    assert forall|time: int| t0 <= time < t1 implies #[trigger] busy_at(v@, time) by {
                        assert(task_running(v@[j0], time));
                    }
                    assert forall|time: int| t0 <= time < t1 implies used_at(v@, time) == used_at(
                        v@,
                        t0 as int,
                    ) by {
                        assert forall|x: int| 0 <= x < v.len() implies task_running(#[trigger] v@[x], time)
                            == task_running(v@[x], t0 as int) by {
                            if task_running(v@[x], t0 as int) {
                                assert(t1 <= task_end(v@[x]));
                            }
                        }
                        lemma_used_same(v@, time, t0 as int);
                    }
                    assert forall|x: int, time: int|
                        0 <= x < n && 0 <= time < t1 && (task_pending(v@[x]) || time < v@[x].time_in->0)
                            implies !#[trigger] fits_at(server, v@, time, x) by {
                        if time >= t0 {
                            assert(used_at(v@, time) == used_at(v@, t0 as int));
                            assert(!can_start(server, v@, t0 as int, x));
                        }
                    }
                    if all_finished(v@, t1 as int) {
                        assert forall|time: int| 0 <= time && work_left_at(v@, time) implies #[trigger] busy_at(
                            v@,
                            time,
                        ) by {
                            let y = choose|y: int| 0 <= y < n && task_end(#[trigger] v@[y]) > time;
                            assert(task_finished(v@[y], t1 as int));
                        }
                    }
                }
                if nn {
                    assert forall|time: int| time >= t0 implies amounts_le(#[trigger] used_at(v@, time), server) by {
                        assert forall|i: int| 0 <= i < v.len() && task_running(#[trigger] v@[i], time)
                            implies task_running(v@[i], t0 as int) by {}
                        assert forall|i: int| 0 <= i < v.len() implies amounts_nonneg((#[trigger] v@[i]).resource@) by {
                            assert(same_job(v@[i], tasks@[i]));
                        }
                        lemma_used_mono(v@, time, t0 as int);
                    }
                }
            }
            proof {
                let ev = SimEvent::Advance { from: t0, to: t1 };
                assert(event_fits(server, v@, events@.push(ev), events.len() as int));
                lemma_trace_push(server, v@, events@, ev);
            }
            events.push(SimEvent::Advance { from: t, to: t1 });
            t = t1;
            if all_done(&v, t) {
                proof {
                    assert(events@ =~= total);
                }
                break;
            }
            proof {
                k = k + 1;
                let ev = SimEvent::Continue { time: t };
                let w = choose|x: int| 0 <= x < n && !task_finished(#[trigger] v@[x], t as int);
                assert(task_pending(v@[w]) || task_running(v@[w], t as int));
                assert(event_fits(server, v@, events@.push(ev), events.len() as int));
                lemma_trace_push(server, v@, events@, ev);
            }
            events.push(SimEvent::Continue { time: t });
            proof {
                assert(events@ + sim_trace(self.resource, v@, t, (n + 1 - k) as nat) =~= total);
            }
        }
        (v, events)
    }
}

/// Each running total of component `k` over what runs at `t` is no larger
/// than the sizes of all needs together.
proof fn lemma_used_size_any(s: Seq<Task>, t: int, k: int, m: int)
    requires
        0 <= m <= s.len(),
    ensures
        abs(sum_below(m, used_term(s, t, k))) <= abs_total(s, k),
{
    let n = s.len() as int;
    let f = used_term(s, t, k);
    let g = abs_term(s, k);
    assert forall|j: int| 0 <= j < m implies abs(#[trigger] f(j)) <= g(j) by {}
    lemma_sum_abs_bound(m, f, g, 0, 0);
    assert forall|j: int| m <= j < n implies 0 <= #[trigger] g(j) by {}
    lemma_sum_prefix(m, n, g);
}

/// One line of the picture of a schedule: a task, when it starts, and what
/// the tasks running at that moment occupy together.
#[derive(Debug, Clone)]
pub struct VisualRow {
    /// When the task starts.
    pub time: usize,
    /// How long the task runs.
    pub time_span: usize,
    /// Video memory occupied by all tasks running when the task starts.
    pub vram_gbytes: i32,
    /// Upload bandwidth occupied by all tasks running when the task starts.
    pub network_upload_gbps: i32,
    /// How many tasks earlier in the list run when the task starts.
    pub stage: usize,
    /// The task's name.
    pub name: String,
}

pub open spec fn stage_pred(s: Seq<Task>, t: int) -> spec_fn(int) -> bool {
    |j: int| task_running(s[j], t)
}

/// The row that describes task `i` of the schedule `s`.
pub open spec fn row_of(s: Seq<Task>, i: int, row: VisualRow) -> bool {
    let t = s[i].time_in->0;
    &&& row.time == t
    &&& row.time_span == s[i].time_span
    &&& row.vram_gbytes == used_at(s, t as int).0
    &&& row.network_upload_gbps == used_at(s, t as int).2
    &&& row.stage == count_below(i, stage_pred(s, t as int))
    &&& row.name == s[i].name
}

/// The inputs on which `visualize` works: every task has been started, its
/// end is a `usize`, and the sums it adds up fit in an `i32`.
pub open spec fn visualizable(s: Seq<Task>) -> bool {
    &&& forall|i: int| 0 <= i < s.len() ==> (#[trigger] s[i]).time_in is Some
    &&& forall|i: int| 0 <= i < s.len() ==> task_end(#[trigger] s[i]) <= usize::MAX
    &&& forall|i: int| 0 <= i < s.len() ==> running_sums_fit(s, (#[trigger] s[i]).time_in->0 as int)
}

impl Server {
    /// Whether `simulate` can be given these tasks.
    pub fn can_simulate(&self, tasks: &Vec<Task>) -> (b: bool)
        ensures
            b == simulation_admissible(self.resource, tasks@),
    {
        let ghost s = tasks@;
        let ghost n = tasks.len() as int;
        let sv = self.resource.vram_gbytes as i64;
        let sd = self.resource.network_download_gbps as i64;
        let su = self.resource.network_upload_gbps as i64;
        let mut acc0: i64 = if sv < 0 { -sv } else { sv };
        let mut acc1: i64 = if sd < 0 { -sd } else { sd };
        let mut acc2: i64 = if su < 0 { -su } else { su };
        let mut sizes_ok = acc0 <= i32::MAX as i64 && acc1 <= i32::MAX as i64 && acc2 <= i32::MAX as i64;
        let mut nonneg = true;
        let mut spans: usize = 0;
        let mut i: usize = 0;
        while i < tasks.len()
            invariant
                s == tasks@,
                n == tasks.len(),
                i <= n,
                sv == self.resource.vram_gbytes,
                sd == self.resource.network_download_gbps,
                su == self.resource.network_upload_gbps,
                forall|j: int| 0 <= j < i ==> task_pending(#[trigger] s[j]),
                forall|j: int|
                    0 <= j < i ==> amounts_nonneg(amounts_sub(self.resource@, (#[trigger] s[j]).resource@)),
                nonneg == forall|j: int| 0 <= j < i ==> amounts_nonneg((#[trigger] s[j]).resource@),
                sizes_ok ==> {
                    &&& acc0 == abs(component(self.resource@, 0)) + sum_below(i as int, abs_term(s, 0))
                    &&& acc1 == abs(component(self.resource@, 1)) + sum_below(i as int, abs_term(s, 1))
                    &&& acc2 == abs(component(self.resource@, 2)) + sum_below(i as int, abs_term(s, 2))
                    &&& acc0 <= i32::MAX
                    &&& acc1 <= i32::MAX
                    &&& acc2 <= i32::MAX
                },
                !sizes_ok ==> {
                    ||| abs(component(self.resource@, 0)) + sum_below(i as int, abs_term(s, 0)) > i32::MAX
                    ||| abs(component(self.resource@, 1)) + sum_below(i as int, abs_term(s, 1)) > i32::MAX
                    ||| abs(component(self.resource@, 2)) + sum_below(i as int, abs_term(s, 2)) > i32::MAX
                },
                spans == sum_below(i as int, span_term(s)),
            decreases n - i,
        {
            let task = &tasks[i];
            if !task.is_pending() {
                return false;
            }
            let rv = task.resource.vram_gbytes as i64;
            let rd = task.resource.network_download_gbps as i64;
            let ru = task.resource.network_upload_gbps as i64;
            if sv - rv < 0 || sd - rd < 0 || su - ru < 0 {
                return false;
            }
            if rv < 0 || rd < 0 || ru < 0 {
                nonneg = false;
            }
            if sizes_ok {
                acc0 = acc0 + if rv < 0 { -rv } else { rv };
                acc1 = acc1 + if rd < 0 { -rd } else { rd };
                acc2 = acc2 + if ru < 0 { -ru } else { ru };
                if acc0 > i32::MAX as i64 || acc1 > i32::MAX as i64 || acc2 > i32::MAX as i64 {
                    sizes_ok = false;
                }
            }
            match spans.checked_add(task.time_span) {
                Some(total) => {
                    spans = total;
                },
                None => {
                    proof {
                        let g = span_term(s);
                        assert forall|x: int| i + 1 <= x < n implies 0 <= #[trigger] g(x) by {}
                        lemma_sum_prefix(i + 1, n, g);
                    }
                    return false;
                },
            }
            i = i + 1;
        }
        proof {
            if sizes_ok {
                assert forall|k: int| 0 <= k < 3 implies abs(#[trigger] component(self.resource@, k))
                    + abs_total(s, k) <= i32::MAX by {
                    if k == 0 {
                    } else if k == 1 {
                    } else {
                    }
                }
            } else {
                if abs(component(self.resource@, 0)) + abs_total(s, 0) > i32::MAX {
                    assert(!sizes_fit(self.resource, s));
                } else if abs(component(self.resource@, 1)) + abs_total(s, 1) > i32::MAX {
                    assert(!sizes_fit(self.resource, s));
                } else {
                    assert(!sizes_fit(self.resource, s));
                }
            }
        }
        nonneg || sizes_ok
    }

    /// Describes each task of a schedule by a row: when it starts, its span,
    /// the video memory and upload bandwidth occupied by everything running
    /// at that moment, and how many earlier tasks in the list run then.
    pub fn visualize(&self, tasks: &Vec<Task>) -> (rows: Vec<VisualRow>)
        requires
            visualizable(tasks@),
        ensures
            rows.len() == tasks.len(),
            forall|i: int| 0 <= i < tasks.len() ==> row_of(tasks@, i, #[trigger] rows[i]),
            forall|i: int|
                0 <= i < tasks.len() ==> (#[trigger] rows[i]).time as int == tasks@[i].time_in->0
                    && rows[i].time_span == tasks@[i].time_span && rows[i].name == tasks@[i].name,
            forall|i: int|
                0 <= i < tasks.len() ==> (#[trigger] rows[i]).stage == Set::new(
                    |j: int|
                        0 <= j < i && tasks@[j].time_in is Some && tasks@[j].time_in->0
                            <= tasks@[i].time_in->0 && tasks@[i].time_in->0 < tasks@[j].time_in->0
                            + tasks@[j].time_span,
                ).len(),
    {
        let mut rows: Vec<VisualRow> = Vec::new();
        let mut i: usize = 0;
        while i < tasks.len()
            invariant
                i <= tasks.len(),
                visualizable(tasks@),
                rows.len() == i,
                forall|x: int| 0 <= x < i ==> row_of(tasks@, x, #[trigger] rows[x]),
            decreases tasks.len() - i,
        {
            let t = match tasks[i].time_in {
                Some(v) => v,
                None => 0,
            };
            proof {
                assert(tasks@[i as int].time_in is Some);
                assert forall|j: int| 0 <= j < tasks.len() implies end_representable_at(
                    #[trigger] tasks@[j],
                    t as int,
                ) by {
                    assert(task_end(tasks@[j]) <= usize::MAX);
                }
                assert(running_sums_fit(tasks@, tasks@[i as int].time_in->0 as int));
            }
            let mut stage: usize = 0;
            let mut j: usize = 0;
            while j < i
                invariant
                    j <= i,
                    i < tasks.len(),
                    forall|x: int| 0 <= x < tasks.len() ==> end_representable_at(#[trigger] tasks@[x], t as int),
                    stage == count_below(j as int, stage_pred(tasks@, t as int)),
                    stage <= j,
                decreases i - j,
            {
                if tasks[j].is_running(t) {
                    stage = stage + 1;
                }
                j = j + 1;
            }
            let used = used_resources(tasks, t);
            let row = VisualRow {
                time: t,
                time_span: tasks[i].time_span,
                vram_gbytes: used.vram_gbytes,
                network_upload_gbps: used.network_upload_gbps,
                stage,
                name: tasks[i].name.clone(),
            };
            rows.push(row);
            i = i + 1;
        }
        proof {
            assert forall|x: int| 0 <= x < tasks.len() implies (#[trigger] rows[x]).stage == Set::new(
                |j: int|
                    0 <= j < x && tasks@[j].time_in is Some && tasks@[j].time_in->0 <= tasks@[x].time_in->0
                        && tasks@[x].time_in->0 < tasks@[j].time_in->0 + tasks@[j].time_span,
            ).len() by {
                lemma_row_stage(tasks@, x, rows[x]);
            }
        }
        rows
    }
}

/// Whether every running total of what runs at `t`, in list order, fits in an `i32`.
fn running_sums_fit_at(tasks: &Vec<Task>, t: usize) -> (b: bool)
    requires
        forall|j: int| 0 <= j < tasks.len() ==> end_representable_at(#[trigger] tasks[j], t as int),
    ensures
        b == running_sums_fit(tasks@, t as int),
{
    let ghost s = tasks@;
    let mut acc0: i64 = 0;
    let mut acc1: i64 = 0;
    let mut acc2: i64 = 0;
    let mut m: usize = 0;
    while m < tasks.len()
        invariant
            s == tasks@,
            m <= tasks.len(),
            forall|j: int| 0 <= j < tasks.len() ==> end_representable_at(#[trigger] tasks[j], t as int),
            acc0 == sum_below(m as int, used_term(s, t as int, 0)),
            acc1 == sum_below(m as int, used_term(s, t as int, 1)),
            acc2 == sum_below(m as int, used_term(s, t as int, 2)),
            forall|x: int, k: int|
                0 <= x <= m && 0 <= k < 3 ==> fits_i32(#[trigger] sum_below(x, used_term(s, t as int, k))),
        decreases tasks.len() - m,
    {
        proof {
            assert(fits_i32(sum_below(m as int, used_term(s, t as int, 0))));
            assert(fits_i32(sum_below(m as int, used_term(s, t as int, 1))));
            assert(fits_i32(sum_below(m as int, used_term(s, t as int, 2))));
        }
        if tasks[m].is_running(t) {
            acc0 = acc0 + tasks[m].resource.vram_gbytes as i64;
            acc1 = acc1 + tasks[m].resource.network_download_gbps as i64;
            acc2 = acc2 + tasks[m].resource.network_upload_gbps as i64;
        }
        if acc0 < i32::MIN as i64 || acc0 > i32::MAX as i64 || acc1 < i32::MIN as i64 || acc1
            > i32::MAX as i64 || acc2 < i32::MIN as i64 || acc2 > i32::MAX as i64 {
            proof {
                if !fits_i32(acc0 as int) {
                    assert(!fits_i32(sum_below(m + 1, used_term(s, t as int, 0))));
                } else if !fits_i32(acc1 as int) {
                    assert(!fits_i32(sum_below(m + 1, used_term(s, t as int, 1))));
                } else {
                    assert(!fits_i32(sum_below(m + 1, used_term(s, t as int, 2))));
                }
            }
            return false;
        }
        proof {
            assert forall|x: int, k: int|
                0 <= x <= m + 1 && 0 <= k < 3 implies fits_i32(
                #[trigger] sum_below(x, used_term(s, t as int, k)),
            ) by {
                if x == m + 1 {
                    if k == 0 {
                    } else if k == 1 {
                    } else {
                    }
                }
            }
        }
        m = m + 1;
    }
    true
}

impl Server {
    /// Whether `visualize` can be given these tasks.
    pub fn can_visualize(&self, tasks: &Vec<Task>) -> (b: bool)
        ensures
            b == visualizable(tasks@),
    {
        let ghost s = tasks@;
        let mut i: usize = 0;
        while i < tasks.len()
            invariant
                s == tasks@,
                i <= tasks.len(),
                forall|j: int| 0 <= j < i ==> (#[trigger] s[j]).time_in is Some,
                forall|j: int| 0 <= j < i ==> task_end(#[trigger] s[j]) <= usize::MAX,
            decreases tasks.len() - i,
        {
            match tasks[i].time_in {
                None => {
                    return false;
                },
                Some(v) => {
                    if v.checked_add(tasks[i].time_span).is_none() {
                        return false;
                    }
                },
            }
            i = i + 1;
        }
        let mut i: usize = 0;
        while i < tasks.len()
            invariant
                s == tasks@,
                i <= tasks.len(),
                forall|j: int| 0 <= j < tasks.len() ==> (#[trigger] s[j]).time_in is Some,
                forall|j: int| 0 <= j < tasks.len() ==> task_end(#[trigger] s[j]) <= usize::MAX,
                forall|j: int| 0 <= j < i ==> running_sums_fit(s, (#[trigger] s[j]).time_in->0 as int),
            decreases tasks.len() - i,
        {
            let t = match tasks[i].time_in {
                Some(v) => v,
                None => 0,
            };
            proof {
                assert(s[i as int].time_in is Some);
                assert forall|j: int| 0 <= j < tasks.len() implies end_representable_at(
                    #[trigger] tasks@[j],
                    t as int,
                ) by {
                    assert(task_end(s[j]) <= usize::MAX);
                }
            }
            if !running_sums_fit_at(tasks, t) {
                return false;
            }
            i = i + 1;
        }
        true
    }
}

/// A schedule of needs that are never negative, in which every task has
/// started, ends at a `usize` time, and what runs never exceeds the server,
/// can be pictured by `visualize`.
pub proof fn lemma_schedule_visualizable(server: Resource, s: Seq<Task>)
    requires
        needs_nonneg(s),
        forall|i: int| 0 <= i < s.len() ==> (#[trigger] s[i]).time_in is Some,
        forall|i: int| 0 <= i < s.len() ==> task_end(#[trigger] s[i]) <= usize::MAX,
        forall|time: int| amounts_le(#[trigger] used_at(s, time), server@),
    ensures
        visualizable(s),
{
    let n = s.len() as int;
    assert forall|i: int| 0 <= i < n implies running_sums_fit(s, (#[trigger] s[i]).time_in->0 as int) by {
        let t = s[i].time_in->0 as int;
        assert forall|m: int, c: int| 0 <= m <= n && 0 <= c < 3 implies fits_i32(
            #[trigger] sum_below(m, used_term(s, t, c)),
        ) by {
            let f = used_term(s, t, c);
            assert forall|j: int| 0 <= j < n implies 0 <= #[trigger] f(j) by {
                assert(amounts_nonneg(s[j].resource@));
            }
            lemma_sum_nonneg(m, f);
            lemma_sum_prefix(m, n, f);
            assert(amounts_le(used_at(s, t), server@));
        }
    }
}

/// In the picture of a schedule that never exceeds the server, each row's
/// video memory and upload bandwidth stay within the server, and a task has
/// fewer earlier tasks running beside it than there are tasks.
pub proof fn lemma_rows_within_server(server: Resource, s: Seq<Task>, rows: Seq<VisualRow>)
    requires
        forall|time: int| amounts_le(#[trigger] used_at(s, time), server@),
        rows.len() == s.len(),
        forall|i: int| 0 <= i < s.len() ==> row_of(s, i, #[trigger] rows[i]),
    ensures
        forall|i: int|
            0 <= i < rows.len() ==> (#[trigger] rows[i]).vram_gbytes <= server.vram_gbytes
                && rows[i].network_upload_gbps <= server.network_upload_gbps && rows[i].stage <= i,
{
    assert forall|i: int| 0 <= i < rows.len() implies (#[trigger] rows[i]).vram_gbytes <= server.vram_gbytes
        && rows[i].network_upload_gbps <= server.network_upload_gbps && rows[i].stage <= i by {
        assert(row_of(s, i, rows[i]));
        let t = s[i].time_in->0 as int;
        assert(amounts_le(used_at(s, t), server@));
        lemma_count_bounds(i, stage_pred(s, t));
    }
}

/// The picture of a schedule depends on the tasks alone: any two lists of
/// rows that describe the same tasks are equal, so `visualize` gives the
/// same rows whatever the server's resources.
pub proof fn lemma_rows_determined(s: Seq<Task>, rows1: Seq<VisualRow>, rows2: Seq<VisualRow>)
    requires
        rows1.len() == s.len(),
        rows2.len() == s.len(),
        forall|i: int| 0 <= i < s.len() ==> row_of(s, i, #[trigger] rows1[i]),
        forall|i: int| 0 <= i < s.len() ==> row_of(s, i, #[trigger] rows2[i]),
    ensures
        rows1 == rows2,
{
    assert forall|i: int| 0 <= i < rows1.len() implies #[trigger] rows1[i] == rows2[i] by {
        assert(row_of(s, i, rows1[i]));
        assert(row_of(s, i, rows2[i]));
    }
    assert(rows1 =~= rows2);
}

/// The stage of a task's row is the number of tasks earlier in the list
/// that run at the moment the task starts: started at or before it, and
/// not yet at their end.
pub proof fn lemma_row_stage(s: Seq<Task>, i: int, row: VisualRow)
    requires
        0 <= i < s.len(),
        row_of(s, i, row),
    ensures
        row.stage == Set::new(
            |j: int|
                0 <= j < i && s[j].time_in is Some && s[j].time_in->0 <= s[i].time_in->0
                    && s[i].time_in->0 < s[j].time_in->0 + s[j].time_span,
        ).len(),
{
    let t = s[i].time_in->0 as int;
    let p = stage_pred(s, t);
    lemma_count_is_card(i, p);
    assert(Set::new(|j: int| 0 <= j < i && p(j)) =~= Set::new(
        |j: int|
            0 <= j < i && s[j].time_in is Some && s[j].time_in->0 <= s[i].time_in->0
                && s[i].time_in->0 < s[j].time_in->0 + s[j].time_span,
    ));
}

} // verus!
