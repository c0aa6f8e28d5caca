# patent_webrender

A small scheduler for rendering jobs, verified with Verus.

A job is a list of tasks (compute, render, upload), each needing some video
memory and network bandwidth for a fixed span of time. `Server::simulate`
admits tasks greedily, in list order, whenever what the running tasks leave
free covers their needs, and moves the clock from one task completion to the
next. `Server::visualize` describes the resulting schedule row by row.

- `src/resource.rs`: resource vectors and their arithmetic.
- `src/task.rs`: tasks and their pending / running / finished states.
- `src/server.rs`: the scheduling rule as a specification, the simulation
  proved equal to it, and its laws: capacity is never exceeded, every task is
  scheduled, every start is at time zero or at another task's end, the
  server is never idle while work remains, a task waits only while it does
  not fit, and a waiting earlier task did not fit when a later one started.
  `simulate_traced` also returns the steps taken.
- `src/job.rs`: random jobs drawn with `rand`.
- `src/sums.rs`: finite sums and counts with their lemmas.
- `app/main.rs`: builds a job, schedules it, prints the steps and writes `out.csv`.
