//! The Snake SoC bare-metal runtime's logic, verified: the bump allocator,
//! the syscall and trap decisions, the device-register protocols of the HAL,
//! and the kernels of the example programs (sorting, CRC-32, shortest
//! paths, Towers of Hanoi, number theory, the sieve, matrix product, Snake).

pub mod allocator;
pub mod crc32;
pub mod floyd;
pub mod hal;
pub mod hanoi;
pub mod lcg;
pub mod matmul;
pub mod msort;
pub mod numerics;
pub mod sieve;
pub mod snake;
pub mod syscall;
pub mod sorts;
