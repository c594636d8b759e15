//! Bump allocator: a pointer bump rounded up to each request's alignment,
//! with the whole heap reclaimed once the last outstanding allocation is freed.

use vstd::prelude::*;
use vstd::arithmetic::power2::pow2;

verus! {

/// `x` is a power of two that fits in a `usize`.
pub open spec fn is_power_of_two(x: usize) -> bool {
    exists|n: nat| n < usize::BITS && #[trigger] pow2(n) == x
}

/// The least multiple of `align` that is at least `addr`.
pub open spec fn spec_align_up(addr: int, align: int) -> int {
    (addr + align - 1) / align * align
}

proof fn lemma_mask_is_round_down(y: usize, a: usize)
    requires
        is_power_of_two(a),
    ensures
        y & !((a - 1) as usize) == y - y % a,
{
    let n = choose|n: nat| n < usize::BITS && #[trigger] pow2(n) == a;
    vstd::arithmetic::power2::lemma_pow2_pos(n);
    vstd::bits::lemma_usize_low_bits_mask_is_mod(y, n);
    let m = (a - 1) as usize;
    assert(y & !m == y - (y & m)) by (bit_vector);
}

/// Round `addr` up to the next multiple of `align` (a power of two).
pub fn align_up(addr: usize, align: usize) -> (r: usize)
    requires
        is_power_of_two(align),
        addr + align <= usize::MAX,
    ensures
        r == spec_align_up(addr as int, align as int),
{
    proof {
        let n = choose|n: nat| n < usize::BITS && #[trigger] pow2(n) == align;
        vstd::arithmetic::power2::lemma_pow2_pos(n);
    }
    let y = addr + align - 1;
    proof {
        lemma_mask_is_round_down(y, align);
        vstd::arithmetic::div_mod::lemma_fundamental_div_mod(y as int, align as int);
        vstd::arithmetic::mul::lemma_mul_is_commutative(align as int, y as int / align as int);
    }
    y & !(align - 1)
}


/// The abstract state of a [`BumpAllocator`].
pub struct BumpState {
    pub heap_start: int,
    pub heap_end: int,
    pub next: int,
    pub allocations: int,
}

/// A request for `size` bytes aligned to `align` fits: its aligned block
/// ends within the address space and the heap.
pub open spec fn alloc_fits(s: BumpState, size: int, align: int) -> bool {
    let end = spec_align_up(s.next, align) + size;
    end <= usize::MAX && end <= s.heap_end
}

/// Outcome of one allocation request on state `s`: the new state and the
/// returned address, `0` standing for the null pointer.
pub open spec fn alloc_step(s: BumpState, size: int, align: int) -> (BumpState, int) {
    let start = spec_align_up(s.next, align);
    let end = start + size;
    if !alloc_fits(s, size, align) {
        (s, 0)
    } else {
        (BumpState { next: end, allocations: s.allocations + 1, ..s }, start)
    }
}

/// Outcome of freeing one allocation: the live count drops (saturating at
/// zero) and, once it reaches zero, the bump pointer returns to the heap base.
pub open spec fn dealloc_step(s: BumpState) -> BumpState {
    let remaining = if s.allocations == 0 { 0 } else { s.allocations - 1 };
    BumpState {
        allocations: remaining,
        next: if remaining == 0 { s.heap_start } else { s.next },
        ..s
    }
}

/// Outcome of `sbrk(increment)` on state `s`: the new state and the returned
/// address, `usize::MAX` standing for failure. The move aims the break at
/// `next + increment` (in unbounded arithmetic) and fails when that would
/// leave the heap: above its end when growing, below its start when
/// shrinking.
pub open spec fn sbrk_step(s: BumpState, increment: isize) -> (BumpState, int) {
    let new = s.next + increment;
    if (increment > 0 && new > s.heap_end) || (increment < 0 && new < s.heap_start) {
        (s, usize::MAX as int)
    } else {
        (BumpState { next: new, ..s }, s.next)
    }
}

/// The break lies within the heap: `heap_start <= next <= heap_end`.
pub open spec fn break_in_heap(s: BumpState) -> bool {
    s.heap_start <= s.next <= s.heap_end
}

/// A bump-pointer allocator over a fixed heap region `[heap_start,
/// heap_end)`: `next` is the bump pointer (the program break) and
/// `allocations` counts the live allocations.
pub struct BumpAllocator {
    heap_start: usize,
    heap_end: usize,
    next: usize,
    allocations: usize,
}

impl View for BumpAllocator {
    type V = BumpState;

    closed spec fn view(&self) -> BumpState {
        BumpState {
            heap_start: self.heap_start as int,
            heap_end: self.heap_end as int,
            next: self.next as int,
            allocations: self.allocations as int,
        }
    }
}

impl BumpAllocator {
    /// Construct the (uninitialised) allocator. The heap bounds are zero until
    /// [`init`](Self::init) runs.
    pub fn new() -> (r: Self)
        ensures
            r@ == (BumpState { heap_start: 0, heap_end: 0, next: 0, allocations: 0 }),
    {
        BumpAllocator { heap_start: 0, heap_end: 0, next: 0, allocations: 0 }
    }

    /// Bind the allocator to `[heap_start, heap_end)`, with no allocation live.
    pub fn init(&mut self, heap_start: usize, heap_end: usize)
        ensures
            final(self)@ == (BumpState {
                heap_start: heap_start as int,
                heap_end: heap_end as int,
                next: heap_start as int,
                allocations: 0,
            }),
    {
        self.heap_start = heap_start;
        self.heap_end = heap_end;
        self.next = heap_start;
        self.allocations = 0;
    }

    /// Newlib-style `_sbrk`: move the program break by `increment` bytes and
    /// return the previous break, or `usize::MAX` if the move would leave the
    /// heap region.
    pub fn sbrk(&mut self, increment: isize) -> (r: usize)
        ensures
            (final(self)@, r as int) == sbrk_step(old(self)@, increment),
    {
        let prev = self.next;
        let new = match prev.checked_add_signed(increment) {
            Some(new) => new,
            // The target lies outside the address space, hence outside the heap.
            None => return usize::MAX,
        };
        let out_of_range = (increment > 0 && new > self.heap_end)
            || (increment < 0 && new < self.heap_start);
        if out_of_range {
            return usize::MAX;
        }
        self.next = new;
        prev
    }

    /// Allocate `size` bytes aligned to `align` (a power of two): bump the
    /// pointer to the next aligned address and return it, or `0` (null) if
    /// the request does not fit below the end of the heap.
    pub fn allocate(&mut self, size: usize, align: usize) -> (r: usize)
        requires
            is_power_of_two(align),
            old(self)@.next + align <= usize::MAX,
            alloc_fits(old(self)@, size as int, align as int) ==> old(self)@.allocations < usize::MAX,
        ensures
            (final(self)@, r as int) == alloc_step(old(self)@, size as int, align as int),
    {
        let start = align_up(self.next, align);
        let end = match start.checked_add(size) {
            Some(end) => end,
            None => return 0,
        };
        if end > self.heap_end {
            return 0;
        }
        self.next = end;
        self.allocations = self.allocations + 1;
        start
    }

    /// Free one allocation. Only the live count is tracked: when the last
    /// outstanding allocation is freed the whole heap is reclaimed at once.
    pub fn deallocate(&mut self)
        ensures
            final(self)@ == dealloc_step(old(self)@),
    {
        let remaining = self.allocations.saturating_sub(1);
        self.allocations = remaining;
        if remaining == 0 {
            self.next = self.heap_start;
        }
    }
}

impl BumpAllocator {
    /// Every part of the allocator's state is a machine word.
    pub proof fn lemma_machine_words(&self)
        ensures
            0 <= self@.heap_start <= usize::MAX,
            0 <= self@.heap_end <= usize::MAX,
            0 <= self@.next <= usize::MAX,
            0 <= self@.allocations <= usize::MAX,
    {
    }

    /// The current program break (the bump pointer).
    pub fn brk(&self) -> (r: usize)
        ensures
            r == self@.next,
    {
        self.next
    }

    /// The number of live allocations.
    pub fn live(&self) -> (r: usize)
        ensures
            r == self@.allocations,
    {
        self.allocations
    }
}

impl Default for BumpAllocator {
    fn default() -> (r: Self)
        ensures
            r@ == (BumpState { heap_start: 0, heap_end: 0, next: 0, allocations: 0 }),
    {
        Self::new()
    }
}


/// The state after `k` frees, starting from `s`.
pub open spec fn dealloc_times(s: BumpState, k: nat) -> BumpState
    decreases k,
{
    if k == 0 {
        s
    } else {
        dealloc_times(dealloc_step(s), (k - 1) as nat)
    }
}

/// A granted block starts at an address that is a multiple of the requested
/// alignment, no lower than the bump pointer, ends no later than the heap's
/// end, and the bump pointer moves to its end.
pub proof fn lemma_granted_block_is_aligned_and_in_heap(s: BumpState, size: int, align: int)
    requires
        align > 0,
        size >= 0,
        s.next >= 0,
        alloc_fits(s, size, align),
    ensures
        ({
            let (t, r) = alloc_step(s, size, align);
            &&& r % align == 0
            &&& s.next <= r
            &&& r + size <= s.heap_end
            &&& t.next == r + size
            &&& t.allocations == s.allocations + 1
        }),
{
    let r = spec_align_up(s.next, align);
    let q = (s.next + align - 1) / align;
    vstd::arithmetic::div_mod::lemma_fundamental_div_mod(s.next + align - 1, align);
    vstd::arithmetic::mul::lemma_mul_is_commutative(align, q);
    vstd::arithmetic::div_mod::lemma_mod_multiples_basic(q, align);
}

/// Two blocks granted one after the other never overlap: the second starts
/// at or after the end of the first.
pub proof fn lemma_successive_blocks_disjoint(
    s: BumpState,
    size1: int,
    align1: int,
    size2: int,
    align2: int,
)
    requires
        align1 > 0,
        align2 > 0,
        size1 >= 0,
        size2 >= 0,
        s.next >= 0,
        alloc_fits(s, size1, align1),
        alloc_fits(alloc_step(s, size1, align1).0, size2, align2),
    ensures
        alloc_step(s, size1, align1).1 + size1 <= alloc_step(
            alloc_step(s, size1, align1).0,
            size2,
            align2,
        ).1,
{
    lemma_granted_block_is_aligned_and_in_heap(s, size1, align1);
    let t = alloc_step(s, size1, align1).0;
    lemma_granted_block_is_aligned_and_in_heap(t, size2, align2);
}

/// Freeing as many allocations as are live returns the bump pointer to the
/// heap base, so the whole heap is available again.
pub proof fn lemma_last_free_reclaims_heap(s: BumpState)
    requires
        s.allocations > 0,
    ensures
        dealloc_times(s, s.allocations as nat).next == s.heap_start,
        dealloc_times(s, s.allocations as nat).allocations == 0,
    decreases s.allocations,
{
    let t = dealloc_step(s);
    if s.allocations == 1 {
        assert(dealloc_times(t, 0) == t);
    } else {
        lemma_last_free_reclaims_heap(t);
    }
}

/// The break never leaves the heap: a heap bound with `heap_start <=
/// heap_end` starts with the break inside it, and allocation, freeing and
/// `sbrk` keep it there, leaving the heap bounds themselves unchanged.
pub proof fn lemma_break_stays_in_heap(s: BumpState, size: int, align: int, increment: isize)
    requires
        0 <= s.heap_start,
        break_in_heap(s),
        align > 0,
        size >= 0,
    ensures
        break_in_heap(alloc_step(s, size, align).0),
        break_in_heap(dealloc_step(s)),
        break_in_heap(sbrk_step(s, increment).0),
        alloc_step(s, size, align).0.heap_start == s.heap_start,
        alloc_step(s, size, align).0.heap_end == s.heap_end,
        dealloc_step(s).heap_start == s.heap_start && dealloc_step(s).heap_end == s.heap_end,
        sbrk_step(s, increment).0.heap_start == s.heap_start,
        sbrk_step(s, increment).0.heap_end == s.heap_end,
        s.heap_start <= s.heap_end ==> break_in_heap(
            BumpState { next: s.heap_start, allocations: 0, ..s },
        ),
{
    if alloc_fits(s, size, align) {
        lemma_granted_block_is_aligned_and_in_heap(s, size, align);
    }
}

/// Freeing while other allocations are still live leaves the bump pointer
/// where it is.
pub proof fn lemma_free_with_live_blocks_keeps_pointer(s: BumpState)
    requires
        s.allocations > 1,
    ensures
        dealloc_step(s).next == s.next,
        dealloc_step(s).allocations == s.allocations - 1,
{
}

/// Moving the break forward by `n` bytes and then back by `n` bytes restores
/// it, when both moves are granted.
pub proof fn lemma_sbrk_round_trip(s: BumpState, n: isize)
    requires
        n > 0,
        0 <= s.next <= usize::MAX,
        sbrk_step(s, n).1 != usize::MAX,
        sbrk_step(sbrk_step(s, n).0, (-n) as isize).1 != usize::MAX,
    ensures
        sbrk_step(sbrk_step(s, n).0, (-n) as isize).0.next == s.next,
        sbrk_step(sbrk_step(s, n).0, (-n) as isize).1 == sbrk_step(s, n).0.next,
{
}

} // verus!
