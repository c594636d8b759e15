use lib::allocator::{align_up, BumpAllocator};
use lib::hal::clint::{self, MSIP0_ADDR, MTIMECMP_HI_ADDR, MTIMECMP_LO_ADDR};
use lib::hal::csr::{disable_global_interrupts, enable_global_interrupts, mstatus, Csr, CsrOp};
use lib::hal::irq;
use lib::hal::mmio::Reg32;
use lib::hal::trap::{self, classify_trap, handle_trap, TrapAction, TrapFrame, TrapKind};
use lib::hal::uart::{Status, Uart, RX_DATA_ADDR, STATUS_ADDR, TX_DATA_ADDR};
use lib::syscall::{dispatch, Dispatched, ENOSYS, SYS_EXIT, SYS_SBRK, SYS_WRITE};

const HEAP: usize = 0x8000_0000;
const HEAP_END: usize = HEAP + 64 * 1024;

fn fresh_heap() -> BumpAllocator {
    let mut a = BumpAllocator::new();
    a.init(HEAP, HEAP_END);
    a
}

#[test]
fn align_up_values() {
    assert_eq!(align_up(0, 4), 0);
    assert_eq!(align_up(1, 4), 4);
    assert_eq!(align_up(4, 4), 4);
    assert_eq!(align_up(5, 8), 8);
    assert_eq!(align_up(0x8000_0001, 1), 0x8000_0001);
    assert_eq!(align_up(17, 16), 32);
}

#[test]
fn malloc_contract() {
    let mut heap = fresh_heap();
    // (1) basic allocation is non-null.
    let a = heap.allocate(1, 4);
    assert_ne!(a, 0);
    // (2) the next 4-aligned, 1-byte request sits 4 bytes on.
    let b = heap.allocate(1, 4);
    assert_ne!(b, 0);
    assert_eq!(b - a, 4);
    // (4-prep) free both; the allocator resets to the base.
    heap.deallocate();
    heap.deallocate();
    // (3) a request larger than the whole heap fails.
    assert_eq!(heap.allocate(1 << 20, 4), 0);
    // (4) after the reset, the base address is reused.
    let c = heap.allocate(1, 4);
    assert_eq!(c, a);
}

#[test]
fn allocation_alignment_and_bounds() {
    let mut heap = fresh_heap();
    let a = heap.allocate(3, 1);
    assert_eq!(a, HEAP);
    let b = heap.allocate(8, 16);
    assert_eq!(b % 16, 0);
    assert!(b >= a + 3);
    // Exactly filling the rest of the heap succeeds; one more byte fails.
    let rest = HEAP_END - (b + 8);
    let c = heap.allocate(rest, 1);
    assert_eq!(c, b + 8);
    assert_eq!(heap.allocate(1, 1), 0);
    assert_eq!(heap.allocate(0, 1), HEAP_END);
}

#[test]
fn allocation_overflowing_address_space_fails() {
    let mut heap = BumpAllocator::new();
    heap.init(usize::MAX - 16, usize::MAX);
    assert_eq!(heap.allocate(usize::MAX, 1), 0);
}

#[test]
fn dealloc_keeps_pointer_while_blocks_live() {
    let mut heap = fresh_heap();
    let _a = heap.allocate(16, 4);
    let b = heap.allocate(16, 4);
    heap.deallocate();
    let c = heap.allocate(16, 4);
    assert_eq!(c, b + 16);
    // Extra frees saturate at zero and reset the heap.
    heap.deallocate();
    heap.deallocate();
    heap.deallocate();
    assert_eq!(heap.allocate(1, 1), HEAP);
}

#[test]
fn sbrk_moves_break() {
    let mut heap = fresh_heap();
    assert_eq!(heap.sbrk(16), HEAP);
    assert_eq!(heap.sbrk(0), HEAP + 16);
    assert_eq!(heap.sbrk(-16), HEAP + 16);
    assert_eq!(heap.sbrk(0), HEAP);
    // Leaving the heap fails and leaves the break where it was.
    assert_eq!(heap.sbrk(-1), usize::MAX);
    assert_eq!(heap.sbrk(70_000), usize::MAX);
    assert_eq!(heap.sbrk(0), HEAP);
    // The break is shared with allocation.
    let a = heap.allocate(4, 4);
    assert_eq!(a, HEAP);
    assert_eq!(heap.sbrk(0), HEAP + 4);
}

#[test]
fn default_allocator_is_empty() {
    let mut heap = BumpAllocator::default();
    assert_eq!(heap.allocate(1, 1), 0);
    assert_eq!(heap.sbrk(0), 0);
}

#[test]
fn dispatch_syscalls() {
    let mut heap = fresh_heap();
    let args = [7, 0x1000, 5, 0, 0, 0, 0];
    assert!(dispatch(&mut heap, SYS_EXIT, args) == Dispatched::Halt(7));
    assert!(dispatch(&mut heap, SYS_WRITE, args) == Dispatched::Write { fd: 7, buf: 0x1000, len: 5 });
    assert!(dispatch(&mut heap, 99, args) == Dispatched::Return(ENOSYS));
    let grow = [32, 0, 0, 0, 0, 0, 0];
    assert!(dispatch(&mut heap, SYS_SBRK, grow) == Dispatched::Return(HEAP));
    assert!(dispatch(&mut heap, SYS_SBRK, [0; 7]) == Dispatched::Return(HEAP + 32));
    let shrink = [(-64isize) as usize, 0, 0, 0, 0, 0, 0];
    assert!(dispatch(&mut heap, SYS_SBRK, shrink) == Dispatched::Return(usize::MAX));
    let exit_neg = [(-1isize) as usize, 0, 0, 0, 0, 0, 0];
    assert!(dispatch(&mut heap, SYS_EXIT, exit_neg) == Dispatched::Halt(-1));
}

fn frame(a7: usize, a0: usize) -> TrapFrame {
    TrapFrame {
        ra: 1, t0: 2, t1: 3, t2: 4, t3: 5, t4: 6, t5: 7, t6: 8,
        a0, a1: 0, a2: 0, a3: 0, a4: 0, a5: 0, a6: 0, a7,
    }
}

#[test]
fn trap_classification() {
    let flag = 1usize << (usize::BITS - 1);
    assert!(classify_trap(11) == TrapKind::Ecall);
    assert!(classify_trap(flag | 11) == TrapKind::ExternalInterrupt);
    assert!(classify_trap(2) == TrapKind::Unexpected);
    assert!(classify_trap(flag | 7) == TrapKind::Unexpected);
}

#[test]
fn trap_ecall_returns_in_a0() {
    let mut heap = fresh_heap();
    let mut f = frame(SYS_SBRK, 8);
    let act = handle_trap(11, 0x8000_0100, &mut f, &mut heap);
    assert!(act == TrapAction::Syscall { mepc: 0x8000_0104, outcome: Dispatched::Return(HEAP) });
    assert_eq!(f.a0, HEAP);
    assert_eq!(f.ra, 1);
    let mut f = frame(42, 8);
    let _ = handle_trap(11, 0, &mut f, &mut heap);
    assert_eq!(f.a0, ENOSYS);
}

#[test]
fn trap_other_causes() {
    let mut heap = fresh_heap();
    let flag = 1usize << (usize::BITS - 1);
    let mut f = frame(SYS_EXIT, 3);
    assert!(handle_trap(flag | 11, 0x10, &mut f, &mut heap) == TrapAction::ServiceRx);
    assert_eq!(f.a0, 3);
    assert!(handle_trap(5, 0x10, &mut f, &mut heap) == TrapAction::Halt(130));
    let mut f = frame(SYS_EXIT, 3);
    assert!(handle_trap(11, 0x10, &mut f, &mut heap)
        == TrapAction::Syscall { mepc: 0x14, outcome: Dispatched::Halt(3) });
    assert_eq!(f.a0, 3);
}

#[test]
fn trap_vector_install() {
    assert!(trap::init(0x8000_0040) == CsrOp::Write(Csr::Mtvec, 0x8000_0040));
}

#[test]
fn uart_status_bits() {
    let uart = Uart::new();
    let s = uart.status(0b10);
    assert!(s.is_rx_valid());
    assert!(!s.is_tx_busy());
    assert_eq!(s.bits(), 2);
    let s = uart.status(Status::TX_BUSY);
    assert!(s.is_tx_busy());
    assert!(!s.is_rx_valid());
}

#[test]
fn uart_transmit_and_receive() {
    let uart = Uart::new();
    let w = uart.put_byte(b'A');
    assert_eq!((w.addr, w.value), (TX_DATA_ADDR, 0x41));
    assert!(uart.try_get_byte(uart.status(0)).is_none());
    assert!(uart.try_get_byte(uart.status(Status::TX_BUSY)).is_none());
    let rx = uart.try_get_byte(uart.status(Status::RX_VALID)).unwrap();
    assert_eq!(rx.data.addr(), RX_DATA_ADDR);
    assert_eq!(rx.byte(0x1234), 0x34);
    assert_eq!((rx.pop.addr, rx.pop.value), (STATUS_ADDR, Status::RX_VALID));
    assert_eq!(uart.rx_data().addr(), RX_DATA_ADDR);
}

#[test]
fn clint_time_and_compare() {
    assert_eq!(clint::mtime(1, 5, 1), Some((1u64 << 32) | 5));
    assert_eq!(clint::mtime(1, 5, 2), None);
    let w = clint::set_mtimecmp(0x1234_5678_9ABC_DEF0);
    assert_eq!((w[0].addr, w[0].value), (MTIMECMP_LO_ADDR, u32::MAX));
    assert_eq!((w[1].addr, w[1].value), (MTIMECMP_HI_ADDR, 0x1234_5678));
    assert_eq!((w[2].addr, w[2].value), (MTIMECMP_LO_ADDR, 0x9ABC_DEF0));
    let p = clint::set_software_interrupt(true);
    assert_eq!((p.addr, p.value), (MSIP0_ADDR, 1));
    assert_eq!(clint::set_software_interrupt(false).value, 0);
}

#[test]
fn interrupt_control() {
    assert!(enable_global_interrupts() == CsrOp::SetBits(Csr::Mstatus, mstatus::MIE));
    assert!(disable_global_interrupts() == CsrOp::ClearBits(Csr::Mstatus, mstatus::MIE));
    let (w, mie_op, mstatus_op) = irq::init();
    assert_eq!((w.addr, w.value), (irq::ENABLE_ADDR, 1));
    assert!(mie_op == CsrOp::SetBits(Csr::Mie, 0x800));
    assert!(mstatus_op == CsrOp::SetBits(Csr::Mstatus, 0x8));
    let c = irq::clear_uart_rx();
    assert_eq!((c.addr, c.value), (irq::PENDING_ADDR, 1));
    assert!(irq::interrupts_enabled(0x88));
    assert!(!irq::interrupts_enabled(0x80));
    assert!(irq::restore_interrupts(true) == CsrOp::SetBits(Csr::Mstatus, mstatus::MIE));
    assert!(irq::restore_interrupts(false) == CsrOp::ClearBits(Csr::Mstatus, mstatus::MIE));
}

#[test]
fn register_stores() {
    let r = Reg32::new(0x1000_1000);
    assert_eq!(r.addr(), 0x1000_1000);
    let w = r.store(7);
    assert_eq!((w.addr, w.value), (0x1000_1000, 7));
}

#[test]
fn compare_register_never_dips() {
    fn store(cur: u64, addr: usize, value: u32) -> u64 {
        if addr == MTIMECMP_LO_ADDR {
            (cur & 0xFFFF_FFFF_0000_0000) | value as u64
        } else {
            (cur & 0xFFFF_FFFF) | ((value as u64) << 32)
        }
    }
    for (old, value) in [(5u64, 0x1_0000_0000u64), (0x2_0000_0000, 7), (u64::MAX, 0), (0, u64::MAX)] {
        let w = clint::set_mtimecmp(value);
        let s1 = store(old, w[0].addr, w[0].value);
        let s2 = store(s1, w[1].addr, w[1].value);
        let s3 = store(s2, w[2].addr, w[2].value);
        assert!(s1 >= old);
        assert!(s2 >= value);
        assert_eq!(s3, value);
    }
}

#[test]
fn sbrk_below_heap_start_fails() {
    let mut heap = BumpAllocator::new();
    heap.init(0x10, 0x100);
    assert_eq!(heap.sbrk(-0x20), usize::MAX);
    assert_eq!(heap.sbrk(0), 0x10);
    assert_eq!(heap.sbrk(0x100), usize::MAX);
    assert_eq!(heap.sbrk(isize::MAX), usize::MAX);
    assert_eq!(heap.sbrk(isize::MIN), usize::MAX);
    assert_eq!(heap.sbrk(0), 0x10);
}

#[test]
fn sbrk_cannot_wrap_past_the_top() {
    let mut heap = fresh_heap();
    assert_eq!(heap.sbrk(0x1_0000), HEAP);
    assert_eq!(heap.brk(), HEAP_END);
    assert_eq!(heap.sbrk(isize::MAX), usize::MAX);
    assert_eq!(heap.brk(), HEAP_END);
    assert_eq!(heap.live(), 0);
}
