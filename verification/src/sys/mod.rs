//! Kernel components: scheduling, threads, timekeeping, synchronization,
//! processor bring-up, logging and fault handling.

pub mod clock;
pub mod console;
pub mod debug;
pub mod event;
pub mod fbcon;
pub mod fireworks;
pub mod firmware;
pub mod initramfs;
pub mod klog;
pub mod panic;
pub mod random;
pub mod sched;
pub mod sched_test;
pub mod smp;
pub mod symbols;
pub mod sync;
pub mod syscall;
pub mod thread;
