//! The syscall layer: a program issues `ecall` with the syscall number in
//! `a7` and arguments in `a0..a6`; the trap handler routes it here.

use vstd::prelude::*;
use crate::allocator::{BumpAllocator, BumpState, sbrk_step};

verus! {

/// Terminate with an exit code.
pub const SYS_EXIT: usize = 0;
/// Write a byte buffer to a file descriptor (only the UART exists).
pub const SYS_WRITE: usize = 1;
/// Move the program break (Newlib `_sbrk`).
pub const SYS_SBRK: usize = 2;
/// Error return for an unknown syscall (`-1`).
pub const ENOSYS: usize = usize::MAX;

/// What servicing a syscall comes to.
#[derive(Clone, Copy, PartialEq, Eq, Structural)]
pub enum Dispatched {
    /// Halt the machine with this exit code; the syscall never returns.
    Halt(i32),
    /// Send the `len` bytes at `buf` to the console (every `fd` is the
    /// UART), then return `len`.
    Write { fd: usize, buf: usize, len: usize },
    /// Return this value in `a0`.
    Return(usize),
}

/// The outcome of syscall `number` with arguments `args`, taking the
/// allocator from `before` to `after`: `SBRK` moves the allocator's break;
/// the other calls leave the allocator alone.
pub open spec fn dispatch_outcome(
    before: BumpState,
    after: BumpState,
    number: usize,
    args: Seq<usize>,
    r: Dispatched,
) -> bool {
    if number == SYS_EXIT {
        r == Dispatched::Halt(args[0] as i32) && after == before
    } else if number == SYS_WRITE {
        r == (Dispatched::Write { fd: args[0], buf: args[1], len: args[2] }) && after == before
    } else if number == SYS_SBRK {
        r is Return && (after, r->Return_0 as int) == sbrk_step(before, args[0] as isize)
    } else {
        r == Dispatched::Return(ENOSYS) && after == before
    }
}

/// Service one syscall: `number` from `a7`, `args` from `a0..a6`.
pub fn dispatch(allocator: &mut BumpAllocator, number: usize, args: [usize; 7]) -> (r: Dispatched)
    ensures
        dispatch_outcome(old(allocator)@, final(allocator)@, number, args@, r),
{
    if number == SYS_EXIT {
        Dispatched::Halt(args[0] as i32)
    } else if number == SYS_WRITE {
        Dispatched::Write { fd: args[0], buf: args[1], len: args[2] }
    } else if number == SYS_SBRK {
        Dispatched::Return(allocator.sbrk(args[0] as isize))
    } else {
        Dispatched::Return(ENOSYS)
    }
}

} // verus!
