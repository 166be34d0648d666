# Verified system-call logic of a small RISC-V teaching kernel

The library models, in Verus, what the kernel's process, synchronisation and
memory system calls decide. Each call takes the state it reads (a `Process`,
a page table, a memory set, an app table) and the values the kernel gathered
for it (the current time, the pid of a freshly forked child, whether a mutex
is held), updates the state, and returns a `SyscallReply`: the value handed
back to user space and the `KernelAction` left for the kernel to carry out
(block, wake up, map an area, write to user memory, ...).

Modules under `src/`:

- `task`: per-task resource lists (`need`, `allocation`) and their operations.
- `semaphore`: the counting semaphore, with the effect of `up` and `down` on
  its wait queue and on the tasks' resource lists.
- `deadlock`: the banker's safety check; it reports a state safe exactly when
  some order lets every task finish.
- `process`: the process state, the replies, and slot allocation in tables.
- `syscall_sync`: sleep, mutex, semaphore, condition-variable and
  deadlock-detection calls.
- `syscall_process`: exit, yield, getpid, fork, exec, waitpid, get_time,
  mmap, munmap, sbrk, spawn and set_priority.
- `mm`: page arithmetic, page-table lookup and the memory start-up sequence.

`tests/` exercises every call on concrete states.
