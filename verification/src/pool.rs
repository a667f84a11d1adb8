//! No page is ever lost.
//!
//! The page allocator's pages are at all times either free or owned by exactly
//! one process (as its code, stack and heap, or as its page tables). Whatever
//! the kernel does, the pages that are free or owned stay the same ones, so once
//! every process is gone, every page is free again.
use vstd::prelude::*;

use crate::isolation;
use crate::kalloc;
use crate::kernel;
use crate::kernel::{Kernel, Program};
use crate::loader;
use crate::proc;
use crate::proc::{Process, Scheduler, State};
use crate::riscv;
use crate::sv39;
use crate::syscall;
use crate::syscall::{Action, Pending};
use crate::trap;
use crate::trap::{TrapAction, TrapFrame};
use crate::uproc;
use crate::user;
use crate::usercopy;
use crate::uvm;
use crate::vm::Vm;

verus! {

/// Does the process in slot `i` own the page at `p`?
pub open spec fn owned_by(vm: Vm, procs: Seq<Option<Process>>, i: int, p: int) -> bool {
    uproc::table_at(procs, i) >= 0 && uvm::owns(vm.mem@, uproc::table_at(procs, i), p)
}

/// Is the page at `p` free, or owned by some process?
pub open spec fn pooled(vm: Vm, procs: Seq<Option<Process>>, p: int) -> bool {
    vm.kmem.pages().contains(p) || exists|i: int| #[trigger] owned_by(vm, procs, i, p)
}

/// The pages that are free or owned are the same ones.
pub open spec fn same_pool(
    vm1: Vm,
    procs1: Seq<Option<Process>>,
    vm2: Vm,
    procs2: Seq<Option<Process>>,
) -> bool {
    forall|p: int| #[trigger] pooled(vm2, procs2, p) <==> pooled(vm1, procs1, p)
}

/// A page is free or has one owner, never both and never two.
pub proof fn lemma_one_owner(k: Kernel, i: int, j: int, p: int)
    requires
        k.wf(),
        owned_by(k.vm, k.sched.procs@, i, p),
    ensures
        !k.vm.kmem.pages().contains(p),
        owned_by(k.vm, k.sched.procs@, j, p) ==> i == j,
{
    uproc::lemma_table(k.vm, k.sched.procs@, i);
    if owned_by(k.vm, k.sched.procs@, j, p) && i != j {
        uproc::lemma_apart(k.vm, k.sched.procs@, i, j);
    }
}

/// Once no user process is left, every page of the pool is free.
pub proof fn lemma_all_returned(k: Kernel, p: int)
    requires
        k.wf(),
        forall|i: int| #[trigger] uproc::table_at(k.sched.procs@, i) < 0,
        pooled(k.vm, k.sched.procs@, p),
    ensures
        k.vm.kmem.pages().contains(p),
{
}

/// The pool depends on the page tables alone.
proof fn lemma_same(vm1: Vm, procs1: Seq<Option<Process>>, vm2: Vm, procs2: Seq<Option<Process>>)
    requires
        vm2.kmem.pages() == vm1.kmem.pages(),
        forall|i: int| #[trigger] uproc::table_at(procs2, i) == uproc::table_at(procs1, i),
        forall|i: int, p: int|
            uproc::table_at(procs1, i) >= 0 ==> (#[trigger] owned_by(vm2, procs1, i, p)
                <==> owned_by(vm1, procs1, i, p)),
    ensures
        same_pool(vm1, procs1, vm2, procs2),
{
    assert forall|p: int| #[trigger] pooled(vm2, procs2, p) <==> pooled(vm1, procs1, p) by {
        if exists|i: int| #[trigger] owned_by(vm2, procs2, i, p) {
            let i = choose|i: int| #[trigger] owned_by(vm2, procs2, i, p);
            assert(owned_by(vm2, procs1, i, p));
            assert(owned_by(vm1, procs1, i, p));
        }
        if exists|i: int| #[trigger] owned_by(vm1, procs1, i, p) {
            let i = choose|i: int| #[trigger] owned_by(vm1, procs1, i, p);
            assert(owned_by(vm2, procs1, i, p));
            assert(owned_by(vm2, procs2, i, p));
        }
    }
}

/// A new address space takes its pages off the free list; the others keep
/// theirs.
proof fn lemma_joined(
    vm1: Vm,
    procs1: Seq<Option<Process>>,
    vm2: Vm,
    procs2: Seq<Option<Process>>,
    n: int,
    t: int,
)
    requires
        uproc::spaces(vm1, procs1),
        vm2.image == vm1.image,
        vm2.root == vm1.root,
        t >= 0,
        uproc::table_at(procs1, n) < 0,
        uproc::table_at(procs2, n) == t,
        forall|i: int|
            i != n ==> #[trigger] uproc::table_at(procs2, i) == uproc::table_at(procs1, i),
        forall|p: int| #[trigger]
            uvm::owns(vm2.mem@, t, p) <==> vm1.kmem.pages().contains(p)
                && !vm2.kmem.pages().contains(p),
        forall|p: int| #[trigger] vm2.kmem.pages().contains(p) ==> vm1.kmem.pages().contains(p),
        forall|a: int|
            !vm1.kmem.pages().contains(sv39::page_of(a)) ==> #[trigger] vm2.mem@[a] == vm1.mem@[a],
    ensures
        same_pool(vm1, procs1, vm2, procs2),
{
    assert forall|i: int, p: int|
        #![trigger owned_by(vm2, procs2, i, p)]
        #![trigger owned_by(vm1, procs1, i, p)]
        i != n implies (owned_by(vm2, procs2, i, p) <==> owned_by(vm1, procs1, i, p)) by {
        let u = uproc::table_at(procs1, i);
        if u >= 0 {
            uproc::lemma_table(vm1, procs1, i);
            uproc::lemma_old_space(vm1, vm2, u);
        }
    }
    assert forall|p: int| #[trigger] pooled(vm2, procs2, p) <==> pooled(vm1, procs1, p) by {
        if exists|i: int| #[trigger] owned_by(vm2, procs2, i, p) {
            let i = choose|i: int| #[trigger] owned_by(vm2, procs2, i, p);
            if i != n {
                assert(owned_by(vm1, procs1, i, p));
            }
        }
        if exists|i: int| #[trigger] owned_by(vm1, procs1, i, p) {
            let i = choose|i: int| #[trigger] owned_by(vm1, procs1, i, p);
            assert(owned_by(vm2, procs2, i, p));
        }
        if vm1.kmem.pages().contains(p) && !vm2.kmem.pages().contains(p) {
            assert(owned_by(vm2, procs2, n, p));
        }
    }
}

/// The slot a new thread goes to was empty, and the others are what they were.
proof fn lemma_grown_tables(s1: Scheduler, s2: Scheduler)
    requires
        proc::grew(s1, s2),
    ensures
        uproc::table_at(s1.procs@, proc::new_slot(s1.procs@)) < 0,
        forall|i: int|
            i != proc::new_slot(s1.procs@) ==> #[trigger] uproc::table_at(s2.procs@, i)
                == uproc::table_at(s1.procs@, i),
{
    proc::lemma_first_free(s1.procs@, 0);
    let n = proc::new_slot(s1.procs@);
    assert forall|i: int| i != n implies #[trigger] uproc::table_at(s2.procs@, i)
        == uproc::table_at(s1.procs@, i) by {
        assert(proc::at(s2.procs@, i) == proc::at(s1.procs@, i));
    }
}

/// Starting a program moves pages from the free list to the new process.
pub proof fn lemma_start_pool(
    k1: Kernel,
    k2: Kernel,
    name: &'static str,
    prog: Program,
    kstack: u64,
    pid: Option<u64>,
)
    requires
        k1.wf(),
        k2.wf(),
        user::started(k1, k2, name, prog, kstack, pid),
    ensures
        same_pool(k1.vm, k1.sched.procs@, k2.vm, k2.sched.procs@),
{
    if pid is Some {
        let n = proc::new_slot(k1.sched.procs@);
        let t = k1.vm.kmem.pages()[0];
        lemma_grown_tables(k1.sched, k2.sched);
        lemma_first_page(k1);
        lemma_joined(k1.vm, k1.sched.procs@, k2.vm, k2.sched.procs@, n, t);
    }
}

/// A kernel thread more takes no page.
pub proof fn lemma_thread_pool(k1: Kernel, k2: Kernel)
    requires
        proc::grew(k1.sched, k2.sched),
        proc::at(k2.sched.procs@, proc::new_slot(k1.sched.procs@))->0.user_table is None,
        k2.vm == k1.vm,
    ensures
        same_pool(k1.vm, k1.sched.procs@, k2.vm, k2.sched.procs@),
{
    lemma_grown_tables(k1.sched, k2.sched);
    lemma_sched_pool(k1, k2);
}

/// The first free page has an address.
proof fn lemma_first_page(k: Kernel)
    requires
        k.wf(),
        k.vm.kmem.pages().len() > 0,
    ensures
        0 <= k.vm.kmem.pages()[0] <= u64::MAX,
{
    let pages = k.vm.kmem.pages();
    kalloc::lemma_pages(k.vm.kmem, k.vm.mem@);
    assert(pages.contains(pages[0]));
}

/// A copy to a process's memory moves no page.
proof fn lemma_copied_pool(k1: Kernel, k2: Kernel, ptr: u64, bytes: Seq<u8>)
    requires
        k1.wf(),
        k2.wf(),
        uproc::user_calls(k1.sched),
        syscall::copied_out(k1.vm, k2.vm, syscall::caller_root(k1), ptr, bytes),
        forall|i: int| #[trigger]
            uproc::table_at(k2.sched.procs@, i) == uproc::table_at(k1.sched.procs@, i),
    ensures
        same_pool(k1.vm, k1.sched.procs@, k2.vm, k2.sched.procs@),
{
    let procs = k1.sched.procs@;
    let c = k1.sched.current->0 as int;
    let root = syscall::caller_root(k1);
    assert(proc::at(procs, c) == k1.sched.running());
    assert(uproc::table_at(procs, c) == root);
    uproc::lemma_table(k1.vm, procs, c);
    isolation::lemma_copied_confined(k1.vm, k2.vm, root, ptr, bytes);
    assert forall|i: int, p: int|
        uproc::table_at(procs, i) >= 0 implies (#[trigger] owned_by(k2.vm, procs, i, p)
        <==> owned_by(k1.vm, procs, i, p)) by {
        uproc::lemma_table(k1.vm, procs, i);
        if i == c {
            if usercopy::user_range(k1.vm.mem@, root, ptr, bytes.len() as int, true) {
                uvm::lemma_shared(k1.vm.mem@, root, k1.vm.root as int, k1.vm.start());
                usercopy::lemma_written(k1.vm, k2.vm, root, ptr, bytes.len() as int);
            }
        } else {
            uproc::lemma_apart(k1.vm, procs, c, i);
            uproc::lemma_other_keep(k1.vm, k2.vm, root, uproc::table_at(procs, i));
        }
    }
    lemma_same(k1.vm, procs, k2.vm, k2.sched.procs@);
}

/// Replacing a program gives the old one's pages back and takes new ones.
#[verifier::spinoff_prover]
#[verifier::rlimit(60)]
proof fn lemma_exec_pool(
    k1: Kernel,
    k2: Kernel,
    f1: TrapFrame,
    f2: TrapFrame,
    ptr: u64,
    len: u64,
    act: Action,
)
    requires
        k1.wf(),
        k2.wf(),
        uproc::user_calls(k1.sched),
        syscall::exec_done(k1, k2, f1, f2, ptr, len, act),
    ensures
        same_pool(k1.vm, k1.sched.procs@, k2.vm, k2.sched.procs@),
{
    let procs1 = k1.sched.procs@;
    let procs2 = k2.sched.procs@;
    let c = k1.sched.current->0 as int;
    let old_t = syscall::caller_root(k1);
    if act is Enter {
        let t = k1.vm.kmem.pages()[0];
        lemma_first_page(k1);
        assert(proc::at(procs1, c) == k1.sched.running());
        assert(uproc::table_at(procs1, c) == old_t);
        assert(uproc::table_at(procs2, c) == t);
        uproc::lemma_table(k1.vm, procs1, c);
        assert forall|i: int, p: int|
            #![trigger owned_by(k2.vm, procs2, i, p)]
            #![trigger owned_by(k1.vm, procs1, i, p)]
            i != c implies (owned_by(k2.vm, procs2, i, p) <==> owned_by(k1.vm, procs1, i, p)) by {
            assert(proc::at(procs2, i) == proc::at(procs1, i));
            let u = uproc::table_at(procs1, i);
            if u >= 0 {
                uproc::lemma_table(k1.vm, procs1, i);
                uproc::lemma_apart(k1.vm, procs1, c, i);
                uproc::lemma_other_keep(k1.vm, k2.vm, old_t, u);
            }
        }
        assert forall|p: int| #[trigger]
            pooled(k2.vm, procs2, p) <==> pooled(k1.vm, procs1, p) by {
            if exists|i: int| #[trigger] owned_by(k2.vm, procs2, i, p) {
                let i = choose|i: int| #[trigger] owned_by(k2.vm, procs2, i, p);
                if i != c {
                    assert(owned_by(k1.vm, procs1, i, p));
                }
            }
            if uvm::owns(k1.vm.mem@, old_t, p) {
                assert(owned_by(k1.vm, procs1, c, p));
            }
            if exists|i: int| #[trigger] owned_by(k1.vm, procs1, i, p) {
                let i = choose|i: int| #[trigger] owned_by(k1.vm, procs1, i, p);
                if i != c {
                    assert(owned_by(k2.vm, procs2, i, p));
                }
            }
            if uvm::owns(k2.vm.mem@, t, p) {
                assert(owned_by(k2.vm, procs2, c, p));
            }
        }
    } else {
        lemma_same(k1.vm, procs1, k2.vm, procs2);
    }
}

/// What the threads are doing, and what files they have open, concerns no page.
proof fn lemma_sched_pool(k1: Kernel, k2: Kernel)
    requires
        k2.vm == k1.vm,
        forall|i: int| #[trigger]
            uproc::table_at(k2.sched.procs@, i) == uproc::table_at(k1.sched.procs@, i),
    ensures
        same_pool(k1.vm, k1.sched.procs@, k2.vm, k2.sched.procs@),
{
    lemma_same(k1.vm, k1.sched.procs@, k2.vm, k2.sched.procs@);
}

/// Which page table a thread has does not depend on what it is doing.
proof fn lemma_moved_tables(procs: Seq<Option<Process>>, c: int, st: State)
    requires
        proc::at(procs, c) is Some,
    ensures
        forall|i: int| #[trigger]
            uproc::table_at(proc::moved(procs, c, st), i) == uproc::table_at(procs, i),
{
}

proof fn lemma_woken_tables(procs: Seq<Option<Process>>, chan: u64)
    ensures
        forall|i: int| #[trigger]
            uproc::table_at(proc::woken(procs, chan), i) == uproc::table_at(procs, i),
{
}

proof fn lemma_replaced_tables(s1: Scheduler, s2: Scheduler, c: int, p: Process)
    requires
        proc::at(s1.procs@, c) matches Some(q) && q.user_table == p.user_table,
        proc::replaced(s1, s2, c, p),
    ensures
        forall|i: int| #[trigger]
            uproc::table_at(s2.procs@, i) == uproc::table_at(s1.procs@, i),
{
}

/// A step of a blocked syscall moves no page.
#[verifier::spinoff_prover]
proof fn lemma_proceeded_pool(
    k1: Kernel,
    k2: Kernel,
    f1: TrapFrame,
    f2: TrapFrame,
    pending: Pending,
    act: Action,
)
    requires
        k1.wf(),
        k2.wf(),
        uproc::user_calls(k1.sched),
        syscall::proceeded(k1, k2, f1, f2, pending, act),
    ensures
        same_pool(k1.vm, k1.sched.procs@, k2.vm, k2.sched.procs@),
{
    let procs = k1.sched.procs@;
    let c = k1.sched.current->0 as int;
    assert(proc::at(procs, c) == k1.sched.running());
    match pending {
        Pending::Read { ptr, len } => {
            lemma_moved_tables(procs, c, State::Sleeping(k1.console.chan));
            if len != 0 && k1.console.pending().len() != 0 {
                lemma_copied_pool(
                    k1,
                    k2,
                    ptr,
                    syscall::read_bytes(k1.console.pending(), len),
                );
            } else {
                lemma_sched_pool(k1, k2);
            }
        },
        Pending::Sleep { .. } => {
            lemma_moved_tables(procs, c, State::Sleeping(crate::timer::TICK_CHAN));
            lemma_sched_pool(k1, k2);
        },
        Pending::Join { .. } => {
            lemma_moved_tables(procs, c, State::Sleeping(proc::EXIT_CHAN));
            lemma_sched_pool(k1, k2);
        },
    }
}

/// A syscall loses no page.
#[verifier::spinoff_prover]
#[verifier::rlimit(60)]
proof fn lemma_syscall_pool(
    k1: Kernel,
    k2: Kernel,
    f1: TrapFrame,
    f2: TrapFrame,
    kstack: u64,
    act: Action,
)
    requires
        k1.wf(),
        k2.wf(),
        uproc::user_calls(k1.sched),
        syscall::dispatched(k1, k2, f1, f2, kstack, act),
    ensures
        same_pool(k1.vm, k1.sched.procs@, k2.vm, k2.sched.procs@),
{
    let procs = k1.sched.procs@;
    let c = k1.sched.current->0 as int;
    let p = k1.sched.running()->0;
    let f = TrapFrame { sepc: (f1.sepc + 4) as u64, ..f1 };
    assert(proc::at(procs, c) == k1.sched.running());
    if f1.a7 == syscall::SYS_EXIT {
        lemma_moved_tables(procs, c, State::Zombie);
        lemma_woken_tables(proc::moved(procs, c, State::Zombie), proc::EXIT_CHAN);
        lemma_sched_pool(k1, k2);
    } else if f1.a7 == syscall::SYS_YIELD {
        lemma_moved_tables(procs, c, State::Runnable);
        lemma_sched_pool(k1, k2);
    } else if f1.a7 == syscall::SYS_SLEEP_MS {
        let target = (k1.timer.ticks() + syscall::ticks_of(f1.a0)) as u64;
        lemma_proceeded_pool(k1, k2, f, f2, Pending::Sleep { target }, act);
    } else if f1.a7 == syscall::SYS_READ {
        lemma_proceeded_pool(k1, k2, f, f2, Pending::Read { ptr: f1.a0, len: f1.a1 }, act);
    } else if f1.a7 == syscall::SYS_UNAME {
        lemma_copied_pool(k1, k2, f1.a0, syscall::uname_bytes(f1.a1));
    } else if f1.a7 == syscall::SYS_OPEN || f1.a7 == syscall::SYS_CLOSE || f1.a7
        == syscall::SYS_SBRK {
        if k2.sched != k1.sched {
            if f1.a7 == syscall::SYS_SBRK {
                let q = Process { heap_brk: (p.heap_brk + f1.a0) as u64, ..p };
                lemma_replaced_tables(k1.sched, k2.sched, c, q);
            } else {
                lemma_replaced_tables(k1.sched, k2.sched, c, k2.sched.running()->0);
            }
        }
        lemma_sched_pool(k1, k2);
    } else if f1.a7 == syscall::SYS_FREAD {
        let e = proc::fd_entry(p, f1.a0);
        if k2.sched != k1.sched {
            lemma_replaced_tables(k1.sched, k2.sched, c, k2.sched.running()->0);
        }
        if e is Some && f1.a2 != 0 {
            lemma_copied_pool(
                k1,
                k2,
                f1.a1,
                syscall::fread_bytes(k1.fs.files(), e->0, f1.a2),
            );
        } else {
            lemma_sched_pool(k1, k2);
        }
    } else if f1.a7 == syscall::SYS_FORK {
        if act is Return {
            let n = proc::new_slot(procs);
            let t = k1.vm.kmem.pages()[0];
            lemma_grown_tables(k1.sched, k2.sched);
            lemma_fork_pages(k1);
            lemma_first_page(k1);
            lemma_joined(k1.vm, procs, k2.vm, k2.sched.procs@, n, t);
        } else {
            lemma_sched_pool(k1, k2);
        }
    } else if f1.a7 == syscall::SYS_WAIT {
        lemma_proceeded_pool(k1, k2, f, f2, Pending::Join { pid: f1.a0 }, act);
    } else if f1.a7 == syscall::SYS_EXEC {
        lemma_exec_pool(k1, k2, f, f2, f1.a0, f1.a1, act);
    } else {
        lemma_sched_pool(k1, k2);
    }
}

/// A copy of an address space takes a page at least.
proof fn lemma_fork_pages(k: Kernel)
    ensures
        uvm::clone_pages(k.vm.mem@, syscall::caller_root(k)) >= 1,
{
}

/// A trap taken while a process runs loses no page.
#[verifier::spinoff_prover]
pub proof fn lemma_trap_pool(
    k1: Kernel,
    k2: Kernel,
    f1: TrapFrame,
    f2: TrapFrame,
    cause: u64,
    stval: u64,
    time: u64,
    kstack: u64,
    act: TrapAction,
)
    requires
        k1.wf(),
        k2.wf(),
        uproc::user_calls(k1.sched),
        trap::trapped(k1, k2, f1, f2, cause, stval, time, kstack, act),
    ensures
        same_pool(k1.vm, k1.sched.procs@, k2.vm, k2.sched.procs@),
{
    let procs = k1.sched.procs@;
    let c = k1.sched.current->0 as int;
    assert(proc::at(procs, c) == k1.sched.running());
    let code = cause & !riscv::SCAUSE_INTERRUPT;
    if cause & riscv::SCAUSE_INTERRUPT != 0 {
        if code == trap::IRQ_S_TIMER {
            let woken = proc::woken(procs, crate::timer::TICK_CHAN);
            lemma_woken_tables(procs, crate::timer::TICK_CHAN);
            assert(proc::at(woken, c) is Some);
            lemma_moved_tables(woken, c, State::Runnable);
        }
        lemma_sched_pool(k1, k2);
    } else if code == trap::EXC_BREAKPOINT {
        lemma_sched_pool(k1, k2);
    } else if code == trap::EXC_ECALL_USER {
        if let TrapAction::Syscall(a) = act {
            lemma_syscall_pool(k1, k2, f1, f2, kstack, a);
        }
    } else if trap::from_user(f1) {
        if (code == trap::EXC_LOAD_PAGE_FAULT || code == trap::EXC_STORE_PAGE_FAULT)
            && uproc::servable(k1.vm, k1.sched, stval) && trap::fault_pages(k1, stval) {
            lemma_fault_pool(k1, k2, stval);
        } else {
            lemma_moved_tables(procs, c, State::Zombie);
            lemma_woken_tables(proc::moved(procs, c, State::Zombie), proc::EXIT_CHAN);
            lemma_sched_pool(k1, k2);
        }
    } else {
        lemma_sched_pool(k1, k2);
    }
}

/// Mapping a heap page moves pages from the free list to the process.
#[verifier::rlimit(60)]
proof fn lemma_fault_pool(k1: Kernel, k2: Kernel, addr: u64)
    requires
        k1.wf(),
        uproc::user_calls(k1.sched),
        k2.sched == k1.sched,
        uvm::page_added(
            k1.vm,
            k2.vm,
            syscall::caller_root(k1),
            addr as int / 4096,
            k1.vm.kmem.pages()[0] as u64,
            loader::DATA_PERM,
        ),
    ensures
        same_pool(k1.vm, k1.sched.procs@, k2.vm, k2.sched.procs@),
{
    let procs = k1.sched.procs@;
    let c = k1.sched.current->0 as int;
    let u = syscall::caller_root(k1);
    let pages1 = k1.vm.kmem.pages();
    let pages2 = k2.vm.kmem.pages();
    assert(proc::at(procs, c) == k1.sched.running());
    assert(uproc::table_at(procs, c) == u);
    assert forall|p: int| #[trigger] pages2.contains(p) implies pages1.contains(p) by {
        let j = pages2.index_of(p);
        assert(pages1[j + (pages1.len() - pages2.len())] == p);
    }
    assert forall|a: int|
        !uvm::owns(k1.vm.mem@, u, sv39::page_of(a)) && !pages1.contains(
            sv39::page_of(a),
        ) implies #[trigger] k2.vm.mem@[a] == k1.vm.mem@[a] by {
        assert(uvm::untouched(k1.vm.mem@, u, sv39::page_of(a)));
    }
    assert forall|i: int, p: int|
        #![trigger owned_by(k2.vm, procs, i, p)]
        #![trigger owned_by(k1.vm, procs, i, p)]
        i != c implies (owned_by(k2.vm, procs, i, p) <==> owned_by(k1.vm, procs, i, p)) by {
        let t = uproc::table_at(procs, i);
        if t >= 0 {
            uproc::lemma_table(k1.vm, procs, i);
            uproc::lemma_table(k1.vm, procs, c);
            uproc::lemma_apart(k1.vm, procs, c, i);
            uproc::lemma_other_keep(k1.vm, k2.vm, u, t);
        }
    }
    assert forall|p: int| #[trigger]
        pooled(k2.vm, procs, p) <==> pooled(k1.vm, procs, p) by {
        if exists|i: int| #[trigger] owned_by(k2.vm, procs, i, p) {
            let i = choose|i: int| #[trigger] owned_by(k2.vm, procs, i, p);
            if i == c {
                if uvm::owns(k1.vm.mem@, u, p) {
                    assert(owned_by(k1.vm, procs, c, p));
                }
            } else {
                assert(owned_by(k1.vm, procs, i, p));
            }
        }
        if exists|i: int| #[trigger] owned_by(k1.vm, procs, i, p) {
            let i = choose|i: int| #[trigger] owned_by(k1.vm, procs, i, p);
            assert(owned_by(k2.vm, procs, i, p));
        }
        if pages1.contains(p) && !pages2.contains(p) {
            assert(owned_by(k2.vm, procs, c, p));
        }
    }
}

/// Reaping gives back exactly what the dead owned: a process's pages are freed
/// when it is gone, and nobody else's are.
#[verifier::rlimit(60)]
pub proof fn lemma_reap_pool(vm1: Vm, vm2: Vm, procs: Seq<Option<Process>>)
    requires
        uproc::spaces(vm1, procs),
        uproc::reaping(vm1, vm2, procs, procs.len() as int),
    ensures
        same_pool(vm1, procs, vm2, uproc::reaped(procs, procs.len() as int)),
        forall|i: int, p: int|
            proc::in_state(procs, i, State::Zombie) && #[trigger] owned_by(vm1, procs, i, p)
                ==> vm2.kmem.pages().contains(p),
{
    let n = procs.len() as int;
    let left = uproc::reaped(procs, n);
    assert forall|i: int, p: int|
        proc::in_state(procs, i, State::Zombie) && #[trigger] owned_by(
            vm1,
            procs,
            i,
            p,
        ) implies vm2.kmem.pages().contains(p) by {
        assert(uproc::dead_page(vm1.mem@, procs, n, p));
    }
    assert forall|i: int| #[trigger] uproc::table_at(left, i) == if proc::in_state(
        procs,
        i,
        State::Zombie,
    ) {
        -1
    } else {
        uproc::table_at(procs, i)
    } by {}
    assert forall|p: int| #[trigger] pooled(vm2, left, p) <==> pooled(vm1, procs, p) by {
        if uproc::dead_page(vm1.mem@, procs, n, p) {
            let i = choose|i: int|
                #![trigger uproc::table_at(procs, i)]
                0 <= i < n && proc::in_state(procs, i, State::Zombie) && uproc::table_at(procs, i)
                    >= 0 && uvm::owns(vm1.mem@, uproc::table_at(procs, i), p);
            assert(owned_by(vm1, procs, i, p));
        }
        if exists|i: int| #[trigger] owned_by(vm2, left, i, p) {
            let i = choose|i: int| #[trigger] owned_by(vm2, left, i, p);
            assert(!proc::in_state(procs, i, State::Zombie));
            assert(uvm::owns(vm2.mem@, uproc::table_at(procs, i), p));
            assert(owned_by(vm1, procs, i, p));
        }
        if exists|i: int| #[trigger] owned_by(vm1, procs, i, p) {
            let i = choose|i: int| #[trigger] owned_by(vm1, procs, i, p);
            if !proc::in_state(procs, i, State::Zombie) {
                assert(uproc::table_at(left, i) == uproc::table_at(procs, i));
                assert(uvm::owns(vm2.mem@, uproc::table_at(procs, i), p));
                assert(owned_by(vm2, left, i, p));
            }
        }
    }
}

} // verus!
