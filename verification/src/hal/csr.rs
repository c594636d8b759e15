//! Control & Status Register operations (Zicsr) that the runtime issues, and
//! the bit positions it uses.

pub mod mie;
pub mod mstatus;

use vstd::prelude::*;

verus! {

/// The machine-mode CSRs the runtime touches.
#[derive(Clone, Copy, PartialEq, Eq, Structural)]
pub enum Csr {
    Mstatus,
    Mie,
    Mtvec,
    Mepc,
    Mcause,
}

/// One CSR instruction: write a value, or set / clear the bits of a mask.
#[derive(Clone, Copy, PartialEq, Eq, Structural)]
pub enum CsrOp {
    Write(Csr, usize),
    SetBits(Csr, usize),
    ClearBits(Csr, usize),
}

/// Unmask async interrupts globally (`mstatus.MIE = 1`).
pub fn enable_global_interrupts() -> (op: CsrOp)
    ensures
        op == CsrOp::SetBits(Csr::Mstatus, mstatus::MIE),
{
    CsrOp::SetBits(Csr::Mstatus, mstatus::MIE)
}

/// Mask async interrupts globally (`mstatus.MIE = 0`).
pub fn disable_global_interrupts() -> (op: CsrOp)
    ensures
        op == CsrOp::ClearBits(Csr::Mstatus, mstatus::MIE),
{
    CsrOp::ClearBits(Csr::Mstatus, mstatus::MIE)
}

} // verus!
