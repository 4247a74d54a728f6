# Roanix

The machine-independent core of the Roanix kernel as a library whose behaviour
is stated in contracts and proved by Verus.

- `src/sys`: scheduler, events, locks, CPUs, clocks and timers, the kernel log,
  the boot archive, firmware tables, the framebuffer console, random numbers,
  symbols and the panic report.
- `src/proc`: processes, descriptors, pipes, signals, futexes, epoll, inotify,
  timer descriptors and the loading of ELF programs.
- `src/mem.rs`, `src/fs.rs`, `src/syscall.rs`: what the two share with the
  memory manager, the file systems and the system call entry.
- `src/bytes.rs`, `src/aligned.rs`, `src/text.rs`, `src/num.rs`, `src/lists.rs`:
  bytes, text, numbers and lists.
- `tests`: examples of every module.
- `app`: the code around the library that touches hardware, the boot loader and
  the logging facade.

State that lives in a running kernel (run queues, wait queues, descriptor
tables) is a value that functions take and change. What the hardware has to do
is a value that they return.
