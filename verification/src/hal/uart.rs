//! Full-duplex UART at `0x1000_1000`: TX_DATA (W), STATUS (R/W1C: bit 0
//! TX_BUSY, bit 1 RX_VALID) and RX_DATA (R, a pure peek — popping the
//! single-entry RX buffer is the W1C write of RX_VALID back to STATUS).

use vstd::prelude::*;
use super::mmio::{Reg32, RegWrite};

verus! {

/// Address of the TX_DATA register.
pub const TX_DATA_ADDR: usize = 0x1000_1000;
/// Address of the STATUS register.
pub const STATUS_ADDR: usize = 0x1000_1004;
/// Address of the RX_DATA register.
pub const RX_DATA_ADDR: usize = 0x1000_1008;

/// Decoded view of the UART STATUS register.
#[derive(Clone, Copy, PartialEq, Eq, Structural, Debug)]
pub struct Status(u32);

impl Status {
    /// Transmitter busy (always 0 in simulation — TX is instantaneous).
    pub const TX_BUSY: u32 = 0x1;
    /// A received byte is waiting in the single-entry RX buffer.
    pub const RX_VALID: u32 = 0x2;

    /// The raw register bits.
    pub closed spec fn raw(self) -> u32 {
        self.0
    }

    /// Raw register bits.
    pub fn bits(self) -> (r: u32)
        ensures
            r == self.raw(),
    {
        self.0
    }

    /// Is the transmitter busy?
    pub fn is_tx_busy(self) -> (r: bool)
        ensures
            r == (self.raw() & Self::TX_BUSY != 0),
    {
        self.0 & Self::TX_BUSY != 0
    }

    /// Is a received byte available to pop?
    pub fn is_rx_valid(self) -> (r: bool)
        ensures
            r == (self.raw() & Self::RX_VALID != 0),
    {
        self.0 & Self::RX_VALID != 0
    }
}

/// The UART. Zero-sized: it owns no state, only the knowledge of where its
/// registers live.
#[derive(Clone, Copy, Default)]
pub struct Uart;

impl Uart {
    /// Obtain a handle to the UART.
    pub fn new() -> (u: Self) {
        Uart
    }

    /// The TX_DATA register.
    pub fn tx_data(&self) -> (r: Reg32)
        ensures
            r.address() == TX_DATA_ADDR,
    {
        Reg32::new(TX_DATA_ADDR)
    }

    /// The STATUS register.
    pub fn status_reg(&self) -> (r: Reg32)
        ensures
            r.address() == STATUS_ADDR,
    {
        Reg32::new(STATUS_ADDR)
    }

    /// The RX_DATA register.
    pub fn rx_data(&self) -> (r: Reg32)
        ensures
            r.address() == RX_DATA_ADDR,
    {
        Reg32::new(RX_DATA_ADDR)
    }

    /// The store that transmits one byte.
    pub fn put_byte(&self, byte: u8) -> (w: RegWrite)
        ensures
            w == (RegWrite { addr: TX_DATA_ADDR, value: byte as u32 }),
    {
        self.tx_data().store(byte as u32)
    }

    /// Decode a value read from the STATUS register.
    pub fn status(&self, raw: u32) -> (s: Status)
        ensures
            s.raw() == raw,
    {
        Status(raw)
    }

    /// Non-blocking receive, given the STATUS word just read: when a byte
    /// is waiting, the accesses that take it — read RX_DATA (a pure peek),
    /// then pop the buffer with the W1C store of RX_VALID to STATUS;
    /// `None`, and no access at all, when no byte is waiting.
    pub fn try_get_byte(&self, status: Status) -> (r: Option<RxPending>)
        ensures
            status.raw() & Status::RX_VALID == 0 ==> r is None,
            status.raw() & Status::RX_VALID != 0 ==> (r matches Some(p) && p.data.address()
                == RX_DATA_ADDR && p.pop == (RegWrite { addr: STATUS_ADDR, value: Status::RX_VALID })),
    {
        if !status.is_rx_valid() {
            return None;
        }
        Some(RxPending { data: self.rx_data(), pop: self.status_reg().store(Status::RX_VALID) })
    }
}

/// A received byte waiting in the RX buffer: read `data` (RX_DATA), then
/// perform `pop`.
pub struct RxPending {
    pub data: Reg32,
    pub pop: RegWrite,
}

impl RxPending {
    /// The received byte, from the word read from RX_DATA: its low byte.
    pub fn byte(&self, rx_data: u32) -> (b: u8)
        ensures
            b == (rx_data & 0xFF) as u8,
    {
        (rx_data & 0xFF) as u8
    }
}

} // verus!
