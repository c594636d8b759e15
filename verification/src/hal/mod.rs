//! The hardware-facing surface of the runtime, as pure decisions: which
//! register to read, which value to store where, which CSR bits to flip.
//! Performing the accesses themselves is left to the platform layer.

pub mod clint;
pub mod csr;
pub mod irq;
pub mod mmio;
pub mod trap;
pub mod uart;

pub use uart::{Status, Uart};
