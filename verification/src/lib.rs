//! Osmium: the core of a RISC-V (RV64GC) kernel for QEMU's `virt` machine.

pub mod abi;
pub mod boot;
pub mod console;
pub mod fairness;
pub mod fs;
pub mod heap;
pub mod isolation;
pub mod kalloc;
pub mod kernel;
pub mod loader;
pub mod memlayout;
pub mod memops;
pub mod physmem;
pub mod plic;
pub mod pool;
pub mod power;
pub mod proc;
pub mod riscv;
pub mod sbi;
pub mod shell;
pub mod spinlock;
pub mod stacks;
pub mod sv39;
pub mod sync;
pub mod syscall;
pub mod text;
pub mod timer;
pub mod trap;
pub mod uart;
pub mod uproc;
pub mod user;
pub mod usercopy;
pub mod uvm;
pub mod vm;
