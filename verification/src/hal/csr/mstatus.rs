//! `mstatus` bit positions used by the runtime.

use vstd::prelude::*;

verus! {

/// Machine Interrupt Enable (bit 3) — the global async-interrupt gate.
pub const MIE: usize = 0x8;

} // verus!
