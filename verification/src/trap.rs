//! Supervisor trap handling: one entry point for exceptions, interrupts and
//! syscalls.
//!
//! [`kerneltrap`] decides what a trap does to the kernel's state and says what
//! is left for the caller to do: print, switch contexts, access a device.
use vstd::prelude::*;

use crate::kalloc;
use crate::kernel;
use crate::kernel::Kernel;
use crate::loader;
use crate::memlayout::UART0_IRQ;
use crate::physmem;
use crate::plic;
use crate::plic::RegWrite;
use crate::proc;
use crate::proc::{Handoff, Scheduler, State, KSTACK_SIZE};
use crate::riscv;
use crate::riscv::{Hart, SCAUSE_INTERRUPT, SSTATUS_SPP};
use crate::spinlock;
use crate::sv39;
use crate::sync;
use crate::syscall;
use crate::syscall::Action;
use crate::timer;
use crate::uproc;
use crate::usercopy;
use crate::uvm;
use crate::vm;

verus! {

/// Saved register state of an interrupted context, built by the trap vector
/// on the kernel stack: x1..x31, then sepc and sstatus.
#[derive(Clone, Copy)]
pub struct TrapFrame {
    pub ra: u64,
    pub sp: u64,
    pub gp: u64,
    pub tp: u64,
    pub t0: u64,
    pub t1: u64,
    pub t2: u64,
    pub s0: u64,
    pub s1: u64,
    pub a0: u64,
    pub a1: u64,
    pub a2: u64,
    pub a3: u64,
    pub a4: u64,
    pub a5: u64,
    pub a6: u64,
    pub a7: u64,
    pub s2: u64,
    pub s3: u64,
    pub s4: u64,
    pub s5: u64,
    pub s6: u64,
    pub s7: u64,
    pub s8: u64,
    pub s9: u64,
    pub s10: u64,
    pub s11: u64,
    pub t3: u64,
    pub t4: u64,
    pub t5: u64,
    pub t6: u64,
    pub sepc: u64,
    pub sstatus: u64,
}

/// Point `stvec` at the trap vector. `sscratch` = 0 marks "currently in S-mode"
/// for the vector's stack-selection protocol.
pub fn init(hart: &mut Hart, vector: u64)
    ensures
        *final(hart) == (Hart { sscratch: 0, stvec: vector, ..*old(hart) }),
{
    hart.sscratch = 0;
    hart.stvec = vector;
}

// Interrupt causes (scause with the interrupt bit set).
pub const IRQ_S_SOFT: u64 = 1;

pub const IRQ_S_TIMER: u64 = 5;

pub const IRQ_S_EXTERNAL: u64 = 9;

// Exception causes.
pub const EXC_BREAKPOINT: u64 = 3;

pub const EXC_ECALL_USER: u64 = 8;

pub const EXC_LOAD_PAGE_FAULT: u64 = 13;

pub const EXC_STORE_PAGE_FAULT: u64 = 15;

/// Name of an exception cause.
pub open spec fn exception_text(code: int) -> &'static str {
    if code == 0 {
        "instruction address misaligned"
    } else if code == 1 {
        "instruction access fault"
    } else if code == 2 {
        "illegal instruction"
    } else if code == 3 {
        "breakpoint"
    } else if code == 4 {
        "load address misaligned"
    } else if code == 5 {
        "load access fault"
    } else if code == 6 {
        "store address misaligned"
    } else if code == 7 {
        "store access fault"
    } else if code == 8 {
        "environment call from U-mode"
    } else if code == 9 {
        "environment call from S-mode"
    } else if code == 12 {
        "instruction page fault"
    } else if code == 13 {
        "load page fault"
    } else if code == 15 {
        "store/AMO page fault"
    } else {
        "unknown exception"
    }
}

/// Name of an exception cause.
pub fn exception_name(code: u64) -> (name: &'static str)
    ensures
        name@ == exception_text(code as int)@,
{
    match code {
        0 => "instruction address misaligned",
        1 => "instruction access fault",
        2 => "illegal instruction",
        3 => "breakpoint",
        4 => "load address misaligned",
        5 => "load access fault",
        6 => "store address misaligned",
        7 => "store access fault",
        8 => "environment call from U-mode",
        9 => "environment call from S-mode",
        12 => "instruction page fault",
        13 => "load page fault",
        15 => "store/AMO page fault",
        _ => "unknown exception",
    }
}

/// Length in bytes of the instruction whose low half is `low_half`: RISC-V
/// encodes it in the low two bits (11 = 32-bit, anything else = 16-bit
/// compressed).
pub fn instruction_len(low_half: u16) -> (len: u64)
    ensures
        len == if low_half % 4 == 3 {
            4u64
        } else {
            2
        },
{
    assert(low_half & 0b11 == low_half % 4) by (bit_vector);
    if low_half & 0b11 == 0b11 {
        4
    } else {
        2
    }
}

/// The page table in use.
pub open spec fn active_root(k: Kernel) -> int {
    k.active_table() as int
}

/// The instruction at `pc` can be read: its address is even, and a page of DRAM
/// is mapped there.
pub open spec fn fetchable(k: Kernel, pc: u64) -> bool {
    let e = sv39::leaf(k.vm.mem@, active_root(k), pc as int / 4096);
    &&& pc % 2 == 0
    &&& pc < vm::VA_MAX
    &&& sv39::pte_valid(e)
    &&& crate::memlayout::dram_page(sv39::pte_pa(e))
}

/// The length of the instruction at `pc`.
pub open spec fn length_at(k: Kernel, pc: u64) -> int {
    let pa = usercopy::phys(k.vm.mem@, active_root(k), pc as int);
    if physmem::byte_at(k.vm.mem@, pa) % 4 == 3 {
        4
    } else {
        2
    }
}

/// Did the trap come from user mode?
pub open spec fn from_user(frame: TrapFrame) -> bool {
    frame.sstatus & SSTATUS_SPP == 0
}

/// What is left to do after a trap.
pub enum TrapAction {
    /// Arm the timer for `deadline`; then, if the running thread was preempted,
    /// switch to the scheduler.
    Tick { deadline: u64, preempted: Option<Handoff> },
    /// Read the interrupt controller's claim register, and go on with
    /// [`claimed`].
    Claim,
    /// Report the breakpoint at `at`, then return behind it.
    Breakpoint { at: u64, user: bool },
    /// Finish the syscall.
    Syscall(Action),
    /// Flush the TLB, then return to retry the faulting instruction.
    Retry,
    /// Report why the process dies, then switch to the scheduler for good.
    Kill { pid: u64, code: u64, sepc: u64, stval: u64, handoff: Handoff },
    /// An interrupt nothing enables.
    BadInterrupt { cause: u64 },
    /// An exception in the kernel itself.
    BadException { code: u64, cause: u64, sepc: u64, stval: u64 },
}

/// The thread's end: a zombie, its joiners woken.
pub open spec fn killed(k1: Kernel, k2: Kernel) -> bool {
    let c = k1.sched.current->0 as int;
    &&& k2.sched.procs@ == proc::woken(
        proc::moved(k1.sched.procs@, c, State::Zombie),
        proc::EXIT_CHAN,
    )
    &&& k2.sched == (Scheduler { procs: k2.sched.procs, ..k1.sched })
    &&& k2.hart == spinlock::pushed(k1.hart)
    &&& k2.vm == k1.vm
    &&& k2.heap == k1.heap
    &&& k2.timer == k1.timer
    &&& k2.programs == k1.programs
    &&& k2.console == k1.console
    &&& k2.fs == k1.fs
}

/// What a timer interrupt does: the tick is counted, threads that sleep until a
/// tick wake up, and the running thread is preempted.
pub open spec fn ticked(k1: Kernel, k2: Kernel, time: u64, act: TrapAction) -> bool {
    let woken = proc::woken(k1.sched.procs@, timer::TICK_CHAN);
    let c = k1.sched.current->0;
    let preempt = k1.sched.running() matches Some(p) && p.state == State::Running;
    &&& k2.timer.ticks() == k1.timer.ticks().wrapping_add(1)
    &&& k2.heap == k1.heap
    &&& k2.vm == k1.vm
    &&& k2.programs == k1.programs
    &&& k2.console == k1.console
    &&& k2.fs == k1.fs
    &&& if preempt {
        &&& act == (TrapAction::Tick {
            deadline: (time + timer::TICK_INTERVAL) as u64,
            preempted: Some(
                Handoff { slot: c, intena: riscv::sie_on(k1.hart.sstatus) },
            ),
        })
        &&& k2.sched.procs@ == proc::moved(woken, c as int, State::Runnable)
        &&& k2.sched == (Scheduler { procs: k2.sched.procs, ..k1.sched })
        &&& k2.hart == spinlock::pushed(k1.hart)
    } else {
        &&& act == (TrapAction::Tick {
            deadline: (time + timer::TICK_INTERVAL) as u64,
            preempted: None,
        })
        &&& k2.sched.procs@ == woken
        &&& k2.sched == (Scheduler { procs: k2.sched.procs, ..k1.sched })
        &&& sync::calm(k1.hart, k2.hart)
    }
}

/// A timer interrupt.
fn on_timer(k: &mut Kernel, time: u64) -> (act: TrapAction)
    requires
        old(k).wf(),
        old(k).hart.noff == 0,
        time + timer::TICK_INTERVAL <= u64::MAX,
    ensures
        final(k).wf(),
        ticked(*old(k), *final(k), time, act),
{
    let ghost k0 = *k;
    let deadline: u64 = timer::on_tick(&mut k.timer, time);
    proof {
        sync::lemma_section(k.hart);
        uproc::lemma_woken_spaces(k.vm, k.sched.procs@, timer::TICK_CHAN);
    }
    proc::wakeup(&mut k.sched, &mut k.hart, timer::TICK_CHAN);
    let ghost k1 = *k;
    proof {
        sync::lemma_section(k.hart);
        if k0.sched.current is Some {
            let c = k0.sched.current->0 as int;
            assert(proc::at(k0.sched.procs@, c) is Some);
            uproc::lemma_moved_spaces(k.vm, k.sched.procs@, c, State::Runnable);
        }
    }
    // Last: may deschedule this context for a while.
    let preempted: Option<Handoff> = proc::on_tick_preempt(&mut k.sched, &mut k.hart);
    TrapAction::Tick { deadline, preempted }
}

/// What the claim register said.
#[derive(Clone, Copy)]
pub enum Claimed {
    /// Nobody's interrupt: return.
    Spurious,
    /// Hand every received byte to the console, then make this write.
    Uart(RegWrite),
    /// Report the unexpected interrupt, then make this write.
    Unexpected(u32, RegWrite),
}

/// What the claim register's reading `word` stands for.
pub open spec fn claim_of(word: u32) -> Claimed {
    if word == 0 {
        Claimed::Spurious
    } else if word == UART0_IRQ {
        Claimed::Uart(RegWrite { addr: plic::CLAIM, value: word })
    } else {
        Claimed::Unexpected(word, RegWrite { addr: plic::CLAIM, value: word })
    }
}

/// Whatever interrupt was claimed is completed, by writing its number back to the register
/// it was read from, and nothing else is; the serial port's is number 10.
pub proof fn lemma_claim_completed(word: u32)
    ensures
        claim_of(word) is Spurious <==> word == 0,
        claim_of(word) is Uart <==> word == 10,
        match claim_of(word) {
            Claimed::Spurious => true,
            Claimed::Uart(w) => w.addr == 0x0c20_1004 && w.value == word,
            Claimed::Unexpected(irq, w) => irq == word && w.addr == 0x0c20_1004 && w.value == word,
        },
{
}

/// Which device raised the external interrupt, from what the claim register
/// reads. Whatever it was, it is completed once served.
pub fn claimed(word: u32) -> (c: Claimed)
    ensures
        c == claim_of(word),
{
    match plic::claim(word) {
        None => Claimed::Spurious,
        Some(irq) => {
            if irq == UART0_IRQ {
                Claimed::Uart(plic::complete(irq))
            } else {
                Claimed::Unexpected(irq, plic::complete(irq))
            }
        },
    }
}

/// The instruction length at `pc`, under the page table in use. A user page is
/// read under `sstatus.SUM`.
fn length_of(k: &mut Kernel, pc: u64, user: bool) -> (len: u64)
    requires
        old(k).wf(),
        old(k).hart.noff < u64::MAX,
        fetchable(*old(k), pc),
    ensures
        final(k).wf(),
        len == length_at(*old(k), pc),
        syscall::kept(*old(k), *final(k)),
{
    let ghost root0 = active_root(*k);
    let ghost k0 = *k;
    proof {
        sync::lemma_section(k.hart);
        lemma_active_tree(*k);
    }
    let root: u64 = proc::current_root(&k.sched, &mut k.hart, k.vm.root);
    let (pa, _) = vm::translate(&k.vm.mem, root, pc).unwrap();
    proof {
        let f = sv39::pte_pa(sv39::leaf(k.vm.mem@, root0, pc as int / 4096)) as u64;
        let o = pc % 4096;
        assert(f % 4096 == 0 && o < 4096 ==> (f | o) == f + o) by (bit_vector);
    }
    let mem: &physmem::Memory = &k.vm.mem;
    let read = |h: &Hart| -> (b: u8)
        requires
            user ==> riscv::sum_set(h.sstatus),
            mem.wf(),
            physmem::byte_addr(pa as int),
        ensures
            b == physmem::byte_at(mem@, pa as int),
    {
        fetch(mem, h, pa, user)
    };
    proof {
        riscv::lemma_sum(k.hart.sstatus);
    }
    let low: u8 = if user {
        riscv::with_sum(&mut k.hart, read)
    } else {
        read(&k.hart)
    };
    instruction_len(low as u16)
}

/// The low byte of the instruction at the physical address `pa`. One of user mode
/// lies on a U page, which is read under `sstatus.SUM` only.
fn fetch(mem: &physmem::Memory, hart: &Hart, pa: u64, user: bool) -> (b: u8)
    requires
        user ==> riscv::sum_set(hart.sstatus),
        mem.wf(),
        physmem::byte_addr(pa as int),
    ensures
        b == physmem::byte_at(mem@, pa as int),
{
    mem.read_byte(pa)
}

/// The page table in use is a tree.
proof fn lemma_active_tree(k: Kernel)
    requires
        k.wf(),
    ensures
        sv39::tree(k.vm.mem@, active_root(k)),
{
    if k.sched.running() is Some {
        let c = k.sched.current->0 as int;
        assert(proc::at(k.sched.procs@, c) == k.sched.running());
        if uproc::table_at(k.sched.procs@, c) >= 0 {
            uproc::lemma_table(k.vm, k.sched.procs@, c);
            uvm::lemma_shared(
                k.vm.mem@,
                uproc::table_at(k.sched.procs@, c),
                k.vm.root as int,
                k.vm.start(),
            );
        }
    }
}

/// Are there pages enough for the page at `addr` and the tables it lacks?
pub open spec fn fault_pages(k: Kernel, addr: u64) -> bool {
    1 + vm::missing(k.vm.mem@, active_root(k), addr as int / 4096) <= k.vm.kmem.pages().len()
}

/// What a page fault of a user process does: a page is mapped into its heap
/// and the instruction retried; or, if the fault is no growable-heap access or
/// memory has run out, the process dies.
pub open spec fn faulted(
    k1: Kernel,
    k2: Kernel,
    f1: TrapFrame,
    code: u64,
    stval: u64,
    act: TrapAction,
) -> bool {
    if uproc::servable(k1.vm, k1.sched, stval) && fault_pages(k1, stval) {
        &&& act is Retry
        &&& k2.sched == k1.sched
        &&& syscall::quiet(k1, k2)
        &&& uvm::page_added(
            k1.vm,
            k2.vm,
            active_root(k1),
            stval as int / 4096,
            k1.vm.kmem.pages()[0] as u64,
            loader::DATA_PERM,
        )
        &&& forall|o: int|
            0 <= o < 4096 && o % 8 == 0 ==> #[trigger] k2.vm.mem@[k1.vm.kmem.pages()[0] + o] == 0
    } else {
        died(k1, k2, f1, code, stval, act)
    }
}

/// A faulting user process dies; the kernel does not.
pub open spec fn died(
    k1: Kernel,
    k2: Kernel,
    f1: TrapFrame,
    code: u64,
    stval: u64,
    act: TrapAction,
) -> bool {
    &&& killed(k1, k2)
    &&& (act matches TrapAction::Kill { pid, code: why, sepc, stval: val, handoff } && pid
        == k1.sched.running()->0.pid && why == code && sepc == f1.sepc && val == stval
        && handoff == syscall::my_handoff(k1))
}

/// Kill the running process.
fn kill(k: &mut Kernel, code: u64, sepc: u64, stval: u64) -> (act: TrapAction)
    requires
        old(k).in_user_trap(),
    ensures
        final(k).wf(),
        killed(*old(k), *final(k)),
        act matches TrapAction::Kill { pid, code: why, sepc: at, stval: val, handoff } && pid
            == old(k).sched.running()->0.pid && why == code && at == sepc && val == stval
            && handoff == syscall::my_handoff(*old(k)),
{
    let ghost k0 = *k;
    proof {
        sync::lemma_section(k.hart);
    }
    let pid: u64 = proc::current_pid(&k.sched, &mut k.hart);
    let handoff: Handoff = proc::exit(&mut k.sched, &mut k.hart);
    proof {
        let c = k0.sched.current->0 as int;
        let gone = proc::moved(k0.sched.procs@, c, State::Zombie);
        assert(proc::at(k0.sched.procs@, c) is Some);
        uproc::lemma_moved_spaces(k.vm, k0.sched.procs@, c, State::Zombie);
        uproc::lemma_woken_spaces(k.vm, gone, proc::EXIT_CHAN);
    }
    TrapAction::Kill { pid, code, sepc, stval, handoff }
}

/// A load or store page fault of a user process.
#[verifier::rlimit(60)]
fn page_fault(k: &mut Kernel, code: u64, sepc: u64, stval: u64, Ghost(f1): Ghost<TrapFrame>) -> (act:
    TrapAction)
    requires
        old(k).in_user_trap(),
        f1.sepc == sepc,
    ensures
        final(k).wf(),
        faulted(*old(k), *final(k), f1, code, stval, act),
{
    let ghost k0 = *k;
    proof {
        sync::lemma_section(k.hart);
        lemma_active_tree(*k);
        assert(proc::at(k.sched.procs@, k.sched.current->0 as int) == k.sched.running());
    }
    if uproc::service_page_fault(&k.sched, &mut k.hart, &mut k.vm, stval) {
        // Demand-mapped a heap page; retry the faulting instruction.
        proof {
            let c = k0.sched.current->0 as int;
            let u = active_root(k0);
            assert(uproc::table_at(k0.sched.procs@, c) == u);
            uproc::lemma_table(k0.vm, k0.sched.procs@, c);
            kalloc::lemma_pages(k0.vm.kmem, k0.vm.mem@);
            assert forall|a: int|
                !kalloc::managed(k0.vm.start(), sv39::page_of(a)) implies #[trigger] k.vm.mem@[a]
                == k0.vm.mem@[a] by {
                if uvm::owns(k0.vm.mem@, u, sv39::page_of(a)) {
                    uvm::lemma_owned(
                        k0.vm.mem@,
                        u,
                        k0.vm.root as int,
                        k0.vm.start(),
                        sv39::page_of(a),
                    );
                }
            }
            kernel::lemma_heap_keep(k0.heap, k0.vm, k.vm);
        }
        TrapAction::Retry
    } else {
        kill(k, code, sepc, stval)
    }
}

/// What a trap does, by its cause.
pub open spec fn trapped(
    k1: Kernel,
    k2: Kernel,
    f1: TrapFrame,
    f2: TrapFrame,
    cause: u64,
    stval: u64,
    time: u64,
    kstack: u64,
    act: TrapAction,
) -> bool {
    let code = cause & !SCAUSE_INTERRUPT;
    if cause & SCAUSE_INTERRUPT != 0 {
        &&& f2 == f1
        &&& if code == IRQ_S_TIMER {
            ticked(k1, k2, time, act)
        } else if code == IRQ_S_EXTERNAL {
            act is Claim && k2 == k1
        } else {
            act == (TrapAction::BadInterrupt { cause }) && k2 == k1
        }
    } else if code == EXC_BREAKPOINT {
        &&& syscall::kept(k1, k2)
        &&& act == (TrapAction::Breakpoint { at: f1.sepc, user: from_user(f1) })
        &&& f2 == (TrapFrame { sepc: (f1.sepc + length_at(k1, f1.sepc)) as u64, ..f1 })
    } else if code == EXC_ECALL_USER {
        act matches TrapAction::Syscall(a) && syscall::dispatched(k1, k2, f1, f2, kstack, a)
    } else if from_user(f1) {
        &&& f2 == f1
        &&& if code == EXC_LOAD_PAGE_FAULT || code == EXC_STORE_PAGE_FAULT {
            faulted(k1, k2, f1, code, stval, act)
        } else {
            died(k1, k2, f1, code, stval, act)
        }
    } else {
        &&& f2 == f1
        &&& k2 == k1
        &&& act == (TrapAction::BadException { code, cause, sepc: f1.sepc, stval })
    }
}

/// Central trap dispatcher, called from the trap vector with the saved frame.
/// `cause` and `stval` are the CSRs of that name, `time` is the timebase, and
/// `kstack` is the kernel stack a forked child would get. A trap from user
/// mode comes from the running user process, and an interrupt arrives with no
/// critical section open.
#[verifier::spinoff_prover]
pub fn kerneltrap(
    k: &mut Kernel,
    frame: &mut TrapFrame,
    cause: u64,
    stval: u64,
    time: u64,
    kstack: u64,
) -> (act: TrapAction)
    requires
        old(k).wf(),
        cause & SCAUSE_INTERRUPT != 0 ==> {
            &&& old(k).hart.noff == 0
            &&& time + timer::TICK_INTERVAL <= u64::MAX
        },
        from_user(*old(frame)) || cause == EXC_ECALL_USER ==> old(k).in_user_trap(),
        cause == EXC_BREAKPOINT ==> {
            &&& fetchable(*old(k), old(frame).sepc)
            &&& old(k).hart.noff < u64::MAX
        },
        cause == EXC_ECALL_USER ==> {
            &&& old(frame).sepc + 4 <= u64::MAX
            &&& old(k).timer.ticks() + syscall::SLEEP_MAX <= u64::MAX
            &&& old(k).sched.next_pid < u64::MAX
            &&& kstack + KSTACK_SIZE <= u64::MAX
        },
    ensures
        final(k).wf(),
        trapped(
            *old(k),
            *final(k),
            *old(frame),
            *final(frame),
            cause,
            stval,
            time,
            kstack,
            act,
        ),
{
    let code: u64 = cause & !SCAUSE_INTERRUPT;
    let user: bool = frame.sstatus & SSTATUS_SPP == 0;
    proof {
        let top: u64 = SCAUSE_INTERRUPT;
        assert(cause & top == 0 ==> cause & !top == cause) by (bit_vector)
            requires
                top == 0x8000_0000_0000_0000,
        ;
    }
    if cause & SCAUSE_INTERRUPT != 0 {
        if code == IRQ_S_TIMER {
            on_timer(k, time)
        } else if code == IRQ_S_EXTERNAL {
            TrapAction::Claim
        } else {
            TrapAction::BadInterrupt { cause }
        }
    } else if code == EXC_BREAKPOINT {
        // Recoverable by design: report and step past the ebreak.
        let at: u64 = frame.sepc;
        let len: u64 = length_of(k, at, user);
        frame.sepc = at + len;
        TrapAction::Breakpoint { at, user }
    } else if code == EXC_ECALL_USER {
        TrapAction::Syscall(syscall::dispatch(k, frame, kstack))
    } else if user {
        if code == EXC_LOAD_PAGE_FAULT || code == EXC_STORE_PAGE_FAULT {
            page_fault(k, code, frame.sepc, stval, Ghost(*frame))
        } else {
            kill(k, code, frame.sepc, stval)
        }
    } else {
        TrapAction::BadException { code, cause, sepc: frame.sepc, stval }
    }
}

/// User mode cannot take the kernel down: whatever exception a process raises,
/// the kernel goes on. A breakpoint is stepped over, a syscall is served, a fault
/// in the heap is served as long as there is memory, and everything else kills
/// the process. Only a fork or an exec can ask for more pages than there are.
pub proof fn lemma_user_trap(
    k1: Kernel,
    k2: Kernel,
    f1: TrapFrame,
    f2: TrapFrame,
    cause: u64,
    stval: u64,
    time: u64,
    kstack: u64,
    act: TrapAction,
)
    requires
        trapped(k1, k2, f1, f2, cause, stval, time, kstack, act),
        from_user(f1),
        cause & SCAUSE_INTERRUPT == 0,
    ensures
        act is Breakpoint || act is Syscall || act is Retry || act is Kill,
        act is Breakpoint <==> cause & !SCAUSE_INTERRUPT == EXC_BREAKPOINT,
        act is Syscall <==> cause & !SCAUSE_INTERRUPT == EXC_ECALL_USER,
        act is Retry ==> uproc::servable(k1.vm, k1.sched, stval) && fault_pages(k1, stval),
        act matches TrapAction::Syscall(a) ==> a is OutOfPages ==> f1.a7 == syscall::SYS_FORK
            || f1.a7 == syscall::SYS_EXEC,
        act is Kill ==> killed(k1, k2),
{
}

} // verus!
