//! CRC-32 (IEEE 802.3, reflected polynomial `0xEDB88320`), computed both
//! bit by bit and through a 256-entry lookup table.

use vstd::prelude::*;

verus! {

/// Reflected CRC-32 polynomial.
pub const POLY: u32 = 0xEDB8_8320;

/// One shift-register step: shift right, folding in the polynomial when the
/// bit shifted out is set.
pub open spec fn crc_bit(c: u32) -> u32 {
    if c & 1 != 0 {
        (c >> 1) ^ POLY
    } else {
        c >> 1
    }
}

/// `k` shift-register steps.
pub open spec fn crc_bits(c: u32, k: nat) -> u32
    decreases k,
{
    if k == 0 {
        c
    } else {
        crc_bits(crc_bit(c), (k - 1) as nat)
    }
}

/// Eight shift-register steps, written out.
pub open spec fn crc_bits8(c: u32) -> u32 {
    crc_bit(crc_bit(crc_bit(crc_bit(crc_bit(crc_bit(crc_bit(crc_bit(c))))))))
}

/// Feed one byte into the shift register.
pub open spec fn crc_byte(c: u32, b: u8) -> u32 {
    crc_bits8(c ^ (b as u32))
}

/// Feed all of `data` into the shift register, starting from `c`.
pub open spec fn crc_update(c: u32, data: Seq<u8>) -> u32
    decreases data.len(),
{
    if data.len() == 0 {
        c
    } else {
        crc_byte(crc_update(c, data.drop_last()), data.last())
    }
}

/// The CRC-32 of `data`: register preset to all ones, output complemented.
pub open spec fn crc32(data: Seq<u8>) -> u32 {
    !crc_update(0xFFFF_FFFF, data)
}

/// The register after feeding `data` through lookup table `table`, from `c`.
pub open spec fn crc_update_table(table: Seq<u32>, c: u32, data: Seq<u8>) -> u32
    decreases data.len(),
{
    if data.len() == 0 {
        c
    } else {
        let prev = crc_update_table(table, c, data.drop_last());
        table[((prev ^ (data.last() as u32)) & 0xFF) as int] ^ (prev >> 8)
    }
}

/// The canonical table: entry `i` is the register after eight steps from `i`.
pub open spec fn crc_table_spec(table: Seq<u32>) -> bool {
    table.len() == 256 && forall|i: int| 0 <= i < 256 ==> #[trigger] table[i] == crc_bits8(i as u32)
}

proof fn lemma_crc_bits_8(c: u32)
    ensures
        crc_bits(c, 8) == crc_bits8(c),
{
    reveal_with_fuel(crc_bits, 9);
}

proof fn lemma_crc_bits_step(c: u32, k: nat)
    ensures
        crc_bits(c, k + 1) == crc_bit(crc_bits(c, k)),
    decreases k,
{
    reveal_with_fuel(crc_bits, 2);
    if k > 0 {
        lemma_crc_bits_step(crc_bit(c), (k - 1) as nat);
    }
}

/// Bit-by-bit CRC-32 shift register.
pub fn crc32_bitwise(data: &[u8]) -> (r: u32)
    ensures
        r == crc32(data@),
{
    let mut crc: u32 = 0xFFFF_FFFF;
    let mut n: usize = 0;
    while n < data.len()
        invariant
            n <= data@.len(),
            crc == crc_update(0xFFFF_FFFF, data@.subrange(0, n as int)),
        decreases data@.len() - n,
    {
        let byte = data[n];
        let ghost start = crc ^ (byte as u32);
        crc = crc ^ byte as u32;
        let mut bit: usize = 0;
        while bit < 8
            invariant
                bit <= 8,
                crc == crc_bits(start, bit as nat),
            decreases 8 - bit,
        {
            proof {
                lemma_crc_bits_step(start, bit as nat);
            }
            crc = if crc & 1 != 0 {
                (crc >> 1) ^ POLY
            } else {
                crc >> 1
            };
            bit = bit + 1;
        }
        proof {
            lemma_crc_bits_8(start);
            assert(data@.subrange(0, n + 1).drop_last() =~= data@.subrange(0, n as int));
        }
        n = n + 1;
    }
    assert(data@.subrange(0, n as int) =~= data@);
    !crc
}

/// Build the 256-entry CRC-32 lookup table.
pub fn make_table() -> (table: [u32; 256])
    ensures
        crc_table_spec(table@),
{
    let mut table = [0u32; 256];
    let mut i: usize = 0;
    while i < 256
        invariant
            i <= 256,
            table@.len() == 256,
            forall|k: int| 0 <= k < i ==> #[trigger] table@[k] == crc_bits8(k as u32),
        decreases 256 - i,
    {
        let mut c = i as u32;
        let mut bit: usize = 0;
        while bit < 8
            invariant
                i < 256,
                bit <= 8,
                c == crc_bits(i as u32, bit as nat),
            decreases 8 - bit,
        {
            proof {
                lemma_crc_bits_step(i as u32, bit as nat);
            }
            c = if c & 1 != 0 { (c >> 1) ^ POLY } else { c >> 1 };
            bit = bit + 1;
        }
        proof {
            lemma_crc_bits_8(i as u32);
        }
        table[i] = c;
        i = i + 1;
    }
    table
}

/// Table-driven CRC-32 over `table`.
pub fn crc32_table(table: &[u32; 256], data: &[u8]) -> (r: u32)
    ensures
        r == !crc_update_table(table@, 0xFFFF_FFFF, data@),
{
    let mut crc: u32 = 0xFFFF_FFFF;
    let mut n: usize = 0;
    while n < data.len()
        invariant
            n <= data@.len(),
            table@.len() == 256,
            crc == crc_update_table(table@, 0xFFFF_FFFF, data@.subrange(0, n as int)),
        decreases data@.len() - n,
    {
        let byte = data[n];
        let idx = ((crc ^ byte as u32) & 0xFF) as usize;
        proof {
            assert(((crc ^ byte as u32) & 0xFF) < 256) by (bit_vector);
            assert(data@.subrange(0, n + 1).drop_last() =~= data@.subrange(0, n as int));
        }
        crc = table[idx] ^ (crc >> 8);
        n = n + 1;
    }
    assert(data@.subrange(0, n as int) =~= data@);
    !crc
}

/// Feeding one byte through the table equals eight shift-register steps.
proof fn lemma_table_step(c: u32, b: u8)
    ensures
        crc_bits8(c ^ (b as u32)) == crc_bits8((c ^ (b as u32)) & 0xFF) ^ (c >> 8),
{
    let x = c ^ (b as u32);
    assert(crc_bits8(x) == crc_bits8(x & 0xFF) ^ (x >> 8)) by (bit_vector);
    assert(x >> 8 == c >> 8) by (bit_vector)
        requires
            x == c ^ (b as u32),
    ;
}

/// The table-driven and bit-by-bit computations agree on every input when the
/// table is the canonical one built by [`make_table`].
pub proof fn lemma_table_matches_bitwise(table: Seq<u32>, c: u32, data: Seq<u8>)
    requires
        crc_table_spec(table),
    ensures
        crc_update_table(table, c, data) == crc_update(c, data),
    decreases data.len(),
{
    if data.len() > 0 {
        lemma_table_matches_bitwise(table, c, data.drop_last());
        let prev = crc_update(c, data.drop_last());
        lemma_table_step(prev, data.last());
        let x = prev ^ (data.last() as u32);
        let idx = x & 0xFF;
        assert(x & 0xFF < 256) by (bit_vector);
        assert(table[idx as int] == crc_bits8(idx));
    }
}


/// The table-driven CRC-32 over the canonical table is the CRC-32.
pub proof fn lemma_table_crc_is_crc32(table: Seq<u32>, data: Seq<u8>)
    requires
        crc_table_spec(table),
    ensures
        !crc_update_table(table, 0xFFFF_FFFF, data) == crc32(data),
{
    lemma_table_matches_bitwise(table, 0xFFFF_FFFF, data);
}

} // verus!
