//! The IRQ aggregator at `0x1000_4000` (not a PLIC), which routes the UART
//! RX-valid edge to the machine external-interrupt wire.

use vstd::prelude::*;
use super::mmio::{Reg32, RegWrite};
use super::csr::{Csr, CsrOp, mie, mstatus};

verus! {

/// IRQ_PENDING (R/W1C); bit 0 is the latched UART RX-valid edge.
pub const PENDING_ADDR: usize = 0x1000_4000;
/// IRQ_ENABLE (R/W); bit 0 routes UART RX to MEIP.
pub const ENABLE_ADDR: usize = 0x1000_4004;
/// Bit 0 — the UART RX source.
pub const BIT_UART_RX: u32 = 0x1;

/// The accesses that route the UART RX edge to the external-interrupt wire
/// and unmask machine external interrupts globally, in order: enable the
/// source in the aggregator, set `mie.MEIE`, set `mstatus.MIE`.
pub fn init() -> (ops: (RegWrite, CsrOp, CsrOp))
    ensures
        ops.0 == (RegWrite { addr: ENABLE_ADDR, value: BIT_UART_RX }),
        ops.1 == CsrOp::SetBits(Csr::Mie, mie::MEIE),
        ops.2 == CsrOp::SetBits(Csr::Mstatus, mstatus::MIE),
{
    (
        Reg32::new(ENABLE_ADDR).store(BIT_UART_RX),
        CsrOp::SetBits(Csr::Mie, mie::MEIE),
        CsrOp::SetBits(Csr::Mstatus, mstatus::MIE),
    )
}

/// The W1C store that clears the latched UART RX edge.
pub fn clear_uart_rx() -> (w: RegWrite)
    ensures
        w == (RegWrite { addr: PENDING_ADDR, value: BIT_UART_RX }),
{
    Reg32::new(PENDING_ADDR).store(BIT_UART_RX)
}

/// Were machine interrupts enabled, given the value read from `mstatus`?
pub fn interrupts_enabled(mstatus_value: usize) -> (r: bool)
    ensures
        r == (mstatus_value & mstatus::MIE != 0),
{
    mstatus_value & mstatus::MIE != 0
}

/// The operation that restores `mstatus.MIE` to its value before a masked
/// section: set it again if it was set, clear it if it was clear, whatever
/// the section did to it.
pub fn restore_interrupts(was_enabled: bool) -> (op: CsrOp)
    ensures
        was_enabled ==> op == CsrOp::SetBits(Csr::Mstatus, mstatus::MIE),
        !was_enabled ==> op == CsrOp::ClearBits(Csr::Mstatus, mstatus::MIE),
{
    if was_enabled {
        CsrOp::SetBits(Csr::Mstatus, mstatus::MIE)
    } else {
        CsrOp::ClearBits(Csr::Mstatus, mstatus::MIE)
    }
}

} // verus!
