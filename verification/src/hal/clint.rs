//! CLINT at `0x0200_0000`: `msip[0]`, `mtimecmp[0]` and the free-running
//! 64-bit `mtime` counter, each 64-bit register seen as two 32-bit words.

use vstd::prelude::*;
use super::mmio::{Reg32, RegWrite};

verus! {

/// `msip[0]`: write 1 to pend the machine software interrupt.
pub const MSIP0_ADDR: usize = 0x0200_0000;
/// Low word of `mtimecmp[0]`.
pub const MTIMECMP_LO_ADDR: usize = 0x0200_4000;
/// High word of `mtimecmp[0]`.
pub const MTIMECMP_HI_ADDR: usize = 0x0200_4004;
/// Low word of `mtime`.
pub const MTIME_LO_ADDR: usize = 0x0200_BFF8;
/// High word of `mtime`.
pub const MTIME_HI_ADDR: usize = 0x0200_BFFC;

/// The 64-bit value with high word `hi` and low word `lo`.
pub open spec fn join_words(hi: u32, lo: u32) -> u64 {
    (hi as int * 0x1_0000_0000 + lo as int) as u64
}

/// Read `mtime` as `hi`, `lo`, `hi_again` (in that order). The snapshot is
/// torn when the high word changed between the two reads; then `None` asks
/// for another round of reads. Otherwise the 64-bit counter value.
pub fn mtime(hi: u32, lo: u32, hi_again: u32) -> (r: Option<u64>)
    ensures
        hi != hi_again ==> r is None,
        hi == hi_again ==> r == Some(join_words(hi, lo)),
{
    if hi == hi_again {
        let v = ((hi as u64) << 32) | (lo as u64);
        assert(v == join_words(hi, lo)) by (bit_vector)
            requires
                v == ((hi as u64) << 32) | (lo as u64),
        ;
        Some(v)
    } else {
        None
    }
}

/// The high 32-bit word of `value`.
pub open spec fn hi_word(value: u64) -> u32 {
    (value >> 32) as u32
}

/// The low 32-bit word of `value`.
pub open spec fn lo_word(value: u64) -> u32 {
    value as u32
}

/// Split `value` into its high and low 32-bit words.
pub fn split_words(value: u64) -> (r: (u32, u32))
    ensures
        r.0 == hi_word(value),
        r.1 == lo_word(value),
        join_words(r.0, r.1) == value,
{
    let hi = (value >> 32) as u32;
    let lo = value as u32;
    assert(join_words(hi, lo) == value) by (bit_vector)
        requires
            hi == (value >> 32) as u32,
            lo == value as u32,
    ;
    (hi, lo)
}

/// The stores that program the timer compare register with `value`: low
/// word to all ones first, then the high word, then the low word, so that no
/// intermediate compare value is below the final one in its high word.
pub fn set_mtimecmp(value: u64) -> (w: [RegWrite; 3])
    ensures
        w[0] == (RegWrite { addr: MTIMECMP_LO_ADDR, value: u32::MAX }),
        w[1] == (RegWrite { addr: MTIMECMP_HI_ADDR, value: hi_word(value) }),
        w[2] == (RegWrite { addr: MTIMECMP_LO_ADDR, value: lo_word(value) }),
        join_words(w[1].value, w[2].value) == value,
{
    let (hi, lo) = split_words(value);
    [
        Reg32::new(MTIMECMP_LO_ADDR).store(u32::MAX),
        Reg32::new(MTIMECMP_HI_ADDR).store(hi),
        Reg32::new(MTIMECMP_LO_ADDR).store(lo),
    ]
}

/// The compare register's 64-bit value after the 32-bit store `w`, given
/// its value `cur` before.
pub open spec fn compare_after(cur: u64, w: RegWrite) -> u64 {
    if w.addr == MTIMECMP_LO_ADDR {
        join_words(hi_word(cur), w.value)
    } else if w.addr == MTIMECMP_HI_ADDR {
        join_words(w.value, lo_word(cur))
    } else {
        cur
    }
}

/// Programming the compare register by the three stores of
/// [`set_mtimecmp`] never passes through a value below both the old and the
/// new compare value: the first store only raises the old value, the second
/// leaves a value no lower than the new one, and the third lands on it.
pub proof fn lemma_compare_never_dips(old: u64, value: u64)
    ensures
        ({
            let s1 = compare_after(old, RegWrite { addr: MTIMECMP_LO_ADDR, value: u32::MAX });
            let s2 = compare_after(s1, RegWrite { addr: MTIMECMP_HI_ADDR, value: hi_word(value) });
            let s3 = compare_after(s2, RegWrite { addr: MTIMECMP_LO_ADDR, value: lo_word(value) });
            &&& s1 >= old
            &&& s2 >= value
            &&& s3 == value
        }),
{
    let s1 = join_words(hi_word(old), u32::MAX);
    assert(s1 >= old) by (bit_vector)
        requires
            s1 == ((((old >> 32) as u32) as int * 0x1_0000_0000 + 0xffff_ffffu32 as int) as u64),
    ;
    let s2 = join_words(hi_word(value), lo_word(s1));
    assert(lo_word(s1) == u32::MAX) by (bit_vector)
        requires
            s1 == ((((old >> 32) as u32) as int * 0x1_0000_0000 + 0xffff_ffffu32 as int) as u64),
    ;
    assert(s2 >= value) by (bit_vector)
        requires
            s2 == ((((value >> 32) as u32) as int * 0x1_0000_0000 + 0xffff_ffffu32 as int) as u64),
    ;
    let s3 = join_words(hi_word(s2), lo_word(value));
    assert(hi_word(s2) == hi_word(value)) by (bit_vector)
        requires
            s2 == ((((value >> 32) as u32) as int * 0x1_0000_0000 + 0xffff_ffffu32 as int) as u64),
    ;
    assert(s3 == value) by (bit_vector)
        requires
            s3 == ((((value >> 32) as u32) as int * 0x1_0000_0000 + (value as u32) as int) as u64),
    ;
}

/// The store that pends (`pending = true`) or clears the machine software
/// interrupt for hart 0.
pub fn set_software_interrupt(pending: bool) -> (w: RegWrite)
    ensures
        w == (RegWrite { addr: MSIP0_ADDR, value: if pending { 1u32 } else { 0u32 } }),
{
    Reg32::new(MSIP0_ADDR).store(if pending { 1 } else { 0 })
}

} // verus!
