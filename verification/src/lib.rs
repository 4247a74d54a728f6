//! Core of the Roanix kernel: scheduling, processes, timekeeping, logging and
//! synchronization, stated and proved over plain values.
//!
//! Hardware state and device access stay outside. Where a decision depends on
//! them, the function takes what was observed and returns the action that the
//! caller performs.

use vstd::prelude::*;

pub mod aligned;
pub mod bytes;
pub mod fs;
pub mod lists;
pub mod mem;
pub mod num;
pub mod proc;
pub mod sys;
pub mod syscall;
pub mod text;

verus! {

/// Instruction set the kernel is built for.
#[derive(Copy, Clone, Debug, PartialEq, Eq, Structural)]
pub enum Arch {
    /// 64-bit x86.
    X86_64,
    /// 64-bit RISC-V.
    Riscv64,
}

} // verus!
