# Snake SoC runtime — verified core

The runtime of a bare-metal RV32I system-on-chip (UART console, CLINT
timer, an IRQ aggregator, `ebreak` halt, `ecall` syscalls, a bump heap) and
its example programs, with the hardware-independent logic formally verified.

* `src/` — the verified library.
  * `allocator` — the bump allocator and `sbrk`, with laws on alignment,
    disjointness of successive blocks and reclaiming the heap on the last free.
  * `syscall`, `hal::trap` — what a syscall or a trap comes to.
  * `hal::{uart, clint, irq, csr, mmio}` — the register protocols as pure
    decisions: which register to store what to, which CSR bits to flip.
  * `sorts`, `msort`, `crc32`, `floyd`, `hanoi`, `numerics`, `sieve`,
    `matmul`, `snake`, `lcg` — the kernels of the example programs, each with
    a functional contract (sorted permutation, CRC-32, shortest paths, legal
    and complete Hanoi solution, primes, games that keep the body well formed).
* `tests/` — executable tests of the library.
* `app/` — the platform layer: volatile MMIO, CSR instructions, `ebreak`,
  `ecall`, the boot path, the trap vector, the global allocator hook, console
  printing, and the example programs' top-level bodies.
