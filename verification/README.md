# os_sync

The synchronisation syscalls and the task manager of a small teaching
kernel, written in Verus with their contracts proved.

- `src/deadlock.rs` — deadlock detection over free, held and needed resource
  units. A task can finish when it belongs to every set of tasks that is
  closed under "holds nothing, or its need is covered once the set's tasks
  give back what they hold" — equivalently, when it holds nothing or some
  order of distinct tasks ending with it lets each be served in turn; the
  algorithm reports a deadlock exactly when the calling task cannot finish.
- `src/process.rs` — the mutex, semaphore and condition variable tables of a
  process and the first-free-slot placement of new entries.
- `src/syscall.rs` — the syscalls. Each decides on the process state and
  returns its value with the blocking action the kernel then performs; lock
  and down requests are checked for deadlock when detection is on.
- `src/stride.rs` — the wrapping order on strides.
- `src/manager.rs` — the FIFO and stride schedulers and the per-task stride
  bookkeeping.
- `app/` — the kernel-wide task manager instance (`add_task`, `fetch_task`).
