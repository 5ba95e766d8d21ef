# rcore_os

The decision logic of a small teaching kernel, written in Verus and proved against its
contracts:

- `sync::deadlock_detector`: the banker's algorithm that decides whether a lock or semaphore
  request may be granted, with the proof that its sweeps find a state safe only when some order
  lets every thread finish, and, where no thread holds a negative amount, whenever one does.
- `sync`, `syscall::sync`: mutex, semaphore and condition-variable slots of a process and the
  system calls that create, lock and release them under deadlock detection.
- `fs::vfs`, `fs`, `syscall::fs`: a file system of inodes held as plain values (files hold
  bytes, directories hold entries), hard links, and the file system calls on a descriptor table.
- `mm`, `syscall::process`: address spaces as mapped areas and page tables, `mmap`/`munmap`,
  and the process calls (fork, exec, spawn, waitpid, priority).
- `task`: the stride scheduler's ready queue and the per-task system call counter.

The system calls take the state they act on as arguments and hand back plain results; where the
kernel must then block, switch tasks or touch user memory, they return an action for the caller
to perform. `app/` holds the kernel-wide globals (ready queue and file system behind spin locks)
and the copy of a time value into a user buffer. It does not perform the returned actions (lock,
block, timers, fork, exec) and has no system-call entry that reads user strings or pointers: the
kernel code those would need (tasks, traps, user address translation) is not part of this
project.

The file system is a model of inodes as values: a file is its bytes and a directory its list of
entries. It has no disk sizes, no on-disk encoding of directory entries (and so no limit on the
length of a name), and no block accounting: data blocks are neither allocated as a file grows
nor given back when it is emptied.
