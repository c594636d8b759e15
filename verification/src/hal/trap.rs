//! M-mode trap decoding: `mcause` tells a synchronous `ECALL` from M-mode
//! (code 11), the machine external interrupt (interrupt flag | 11, raised by
//! the IRQ aggregator on UART RX) and anything else, which is unexpected.

use vstd::prelude::*;
use super::csr::{Csr, CsrOp};
use crate::allocator::BumpAllocator;
use crate::syscall::{dispatch, dispatch_outcome, Dispatched};

verus! {

/// The caller-saved register state spilled on a trap, in the word order the
/// trap vector stores it.
pub struct TrapFrame {
    pub ra: usize,
    pub t0: usize,
    pub t1: usize,
    pub t2: usize,
    pub t3: usize,
    pub t4: usize,
    pub t5: usize,
    pub t6: usize,
    pub a0: usize,
    pub a1: usize,
    pub a2: usize,
    pub a3: usize,
    pub a4: usize,
    pub a5: usize,
    pub a6: usize,
    pub a7: usize,
}

/// Synchronous cause: environment call from M-mode.
pub const CAUSE_ECALL_FROM_M: usize = 11;
/// Asynchronous cause code: machine external interrupt.
pub const CAUSE_MACHINE_EXTERNAL: usize = 11;
/// Halt code for an unexpected trap.
pub const HALT_UNEXPECTED_TRAP: i32 = 130;

/// The `mcause` interrupt flag: the most significant bit.
pub open spec fn interrupt_flag() -> usize {
    (1usize << (usize::BITS - 1) as usize) as usize
}

/// The kinds of trap the runtime tells apart.
#[derive(Clone, Copy, PartialEq, Eq, Structural)]
pub enum TrapKind {
    Ecall,
    ExternalInterrupt,
    Unexpected,
}

/// What the handler does about a trap.
#[derive(Clone, Copy, PartialEq, Eq, Structural)]
pub enum TrapAction {
    /// Resume at `mepc` (already advanced past the `ecall`) after carrying
    /// out `outcome`; the syscall's return value is already in the frame's
    /// `a0`.
    Syscall { mepc: usize, outcome: Dispatched },
    /// The external interrupt raised on UART RX: acknowledge it by clearing
    /// the latched edge, then resume the interrupted instruction.
    ServiceRx,
    /// Halt with this code.
    Halt(i32),
}

/// Install the trap vector in Direct mode: `mtvec` gets the (4-byte
/// aligned) address of the trap entry, so its two mode bits are zero.
pub fn init(trap_entry: usize) -> (op: CsrOp)
    requires
        trap_entry % 4 == 0,
    ensures
        op == CsrOp::Write(Csr::Mtvec, trap_entry),
{
    CsrOp::Write(Csr::Mtvec, trap_entry)
}

/// The kind of trap that `mcause` value `cause` denotes.
pub open spec fn classify_trap_spec(cause: usize) -> TrapKind {
    if cause & interrupt_flag() == 0 && cause == CAUSE_ECALL_FROM_M {
            TrapKind::Ecall
        } else if cause & interrupt_flag() != 0 && cause & !interrupt_flag()
            == CAUSE_MACHINE_EXTERNAL {
            TrapKind::ExternalInterrupt
        } else {
            TrapKind::Unexpected
        }
}

/// Decode `mcause`.
pub fn classify_trap(cause: usize) -> (k: TrapKind)
    ensures
        k == classify_trap_spec(cause),
{
    let flag: usize = 1usize << (usize::BITS - 1);
    let is_interrupt = cause & flag != 0;
    let code = cause & !flag;
    proof {
        assert(!is_interrupt ==> code == cause) by (bit_vector)
            requires
                is_interrupt == (cause & flag != 0),
                code == cause & !flag,
        ;
    }
    if !is_interrupt && code == CAUSE_ECALL_FROM_M {
        TrapKind::Ecall
    } else if is_interrupt && code == CAUSE_MACHINE_EXTERNAL {
        TrapKind::ExternalInterrupt
    } else {
        TrapKind::Unexpected
    }
}

/// Handle a trap with cause `cause` taken at `mepc`, over the spilled
/// `frame`: an `ECALL` resumes past the `ecall` instruction (no compressed
/// instructions, so 4 bytes on) after dispatching syscall `a7` with
/// arguments `a0..a6`, storing its return value in `a0` (a write returns
/// its length); the external interrupt is acknowledged; anything else
/// halts with code 130.
pub fn handle_trap(
    cause: usize,
    mepc: usize,
    frame: &mut TrapFrame,
    allocator: &mut BumpAllocator,
) -> (act: TrapAction)
    requires
        classify_trap_spec(cause) == TrapKind::Ecall ==> mepc + 4 <= usize::MAX,
    ensures
        classify_trap_spec(cause) == TrapKind::Ecall ==> ({
            let args = [
                old(frame).a0,
                old(frame).a1,
                old(frame).a2,
                old(frame).a3,
                old(frame).a4,
                old(frame).a5,
                old(frame).a6,
            ];
            &&& act is Syscall
            &&& act->mepc == mepc + 4
            &&& dispatch_outcome(old(allocator)@, final(allocator)@, old(frame).a7, args@, act->outcome)
            &&& final(frame).a0 == (match act->outcome {
                Dispatched::Return(v) => v,
                Dispatched::Write { len, .. } => len,
                Dispatched::Halt(_) => old(frame).a0,
            })
            &&& *final(frame) == (TrapFrame { a0: final(frame).a0, ..*old(frame) })
        }),
        classify_trap_spec(cause) == TrapKind::ExternalInterrupt ==> act == TrapAction::ServiceRx
            && *final(frame) == *old(frame) && final(allocator)@ == old(allocator)@,
        classify_trap_spec(cause) == TrapKind::Unexpected ==> act == TrapAction::Halt(
            HALT_UNEXPECTED_TRAP,
        ) && *final(frame) == *old(frame) && final(allocator)@ == old(allocator)@,
{
    match classify_trap(cause) {
        TrapKind::Ecall => {
            let args = [frame.a0, frame.a1, frame.a2, frame.a3, frame.a4, frame.a5, frame.a6];
            let outcome = dispatch(allocator, frame.a7, args);
            match outcome {
                Dispatched::Return(v) => frame.a0 = v,
                Dispatched::Write { len, .. } => frame.a0 = len,
                Dispatched::Halt(_) => {},
            }
            TrapAction::Syscall { mepc: mepc + 4, outcome }
        },
        TrapKind::ExternalInterrupt => TrapAction::ServiceRx,
        TrapKind::Unexpected => TrapAction::Halt(HALT_UNEXPECTED_TRAP),
    }
}

} // verus!
