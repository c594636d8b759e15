//! Fixed 32-bit memory-mapped registers and the stores made to them.

use vstd::prelude::*;

verus! {

/// A 32-bit memory-mapped register at a fixed physical address.
#[derive(Clone, Copy)]
pub struct Reg32 {
    addr: usize,
}

/// A 32-bit store of `value` to the register at `addr`.
#[derive(Clone, Copy)]
pub struct RegWrite {
    pub addr: usize,
    pub value: u32,
}

impl Reg32 {
    /// The register's physical address.
    pub closed spec fn address(self) -> usize {
        self.addr
    }

    /// Bind a register to its physical address.
    pub fn new(addr: usize) -> (r: Self)
        ensures
            r.address() == addr,
    {
        Reg32 { addr }
    }

    /// The register's physical address.
    pub fn addr(self) -> (a: usize)
        ensures
            a == self.address(),
    {
        self.addr
    }

    /// The store that writes `value` to this register.
    pub fn store(self, value: u32) -> (w: RegWrite)
        ensures
            w == (RegWrite { addr: self.address(), value }),
    {
        RegWrite { addr: self.addr, value }
    }
}

} // verus!
