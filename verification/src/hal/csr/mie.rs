//! `mie` bit positions (machine interrupt-enable mask).

use vstd::prelude::*;

verus! {

/// Machine Software Interrupt Enable (bit 3).
pub const MSIE: usize = 0x8;

/// Machine Timer Interrupt Enable (bit 7).
pub const MTIE: usize = 0x80;

/// Machine External Interrupt Enable (bit 11).
pub const MEIE: usize = 0x800;

} // verus!
