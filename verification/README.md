# Osmium

A RISC-V (RV64GC) kernel for QEMU's `virt` machine whose logic is verified with
Verus: page allocator, heap, Sv39 page tables, per-process address spaces, the
scheduler, fork/exec/wait, syscalls and traps, blocking channels, the ramfs and
the shell.

`src/` is a library without side effects. Memory is a value
(`physmem::Memory`, the words of DRAM), the hart's privileged registers are a
value (`riscv::Hart`), and the whole kernel is one (`kernel::Kernel`). A function
that would block returns a `Handoff`, the request to switch to the scheduler; one
that would touch a device returns the register write or firmware call to make.
`app/` does these things: trap vector, context switch, register access, `main`.

| Module | Contents |
| ------ | -------- |
| `memlayout`, `physmem`, `memops` | the physical map; DRAM as words and bytes |
| `kalloc`, `heap` | physical page allocator; first-fit coalescing heap |
| `sv39`, `vm` | page-table entries and trees; mapping, the kernel's map |
| `uvm`, `usercopy`, `loader` | user page tables; user pointers; program images |
| `riscv`, `spinlock`, `sync` | CSRs; interrupt-safe locks; semaphore, channel |
| `proc`, `uproc` | threads, sleep/wakeup, descriptors; user processes, scheduler |
| `kernel`, `syscall`, `trap` | the kernel's state; ecall dispatch; traps |
| `timer`, `plic`, `uart`, `sbi`, `power` | device and firmware protocols |
| `console`, `fs`, `shell`, `text`, `user` | input ring, ramfs, shell, formatting, programs |
| `boot` | bringing the kernel up, self-tests, the boot workload |
| `isolation`, `pool`, `stacks` | what holds of the kernel as a whole |

`isolation` proves that user mode reaches nothing but the pages of its own
address space, that a process's table is active exactly while it runs, that a
copy out is what a copy in reads back, and that a forked child starts with a
copy of its parent's memory. `pool` proves that every page has one owner and
that none is lost, through start, trap and reaping; `stacks` proves the like of
kernel stacks.

One function is trusted, `text::from_utf8`, for the standard library's UTF-8
check.
