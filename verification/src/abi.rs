//! What a process can rely on: for each system call and for the page faults the
//! kernel serves, the result it gets, in terms of its registers, its memory, its
//! descriptors and the other processes.
use vstd::prelude::*;

use crate::fairness;
use crate::fs;
use crate::isolation;
use crate::kalloc;
use crate::kernel;
use crate::kernel::{Kernel, Program};
use crate::loader;
use crate::physmem;
use crate::proc;
use crate::proc::{First, Handoff, Process, State};
use crate::riscv;
use crate::riscv::Hart;
use crate::spinlock;
use crate::sv39;
use crate::syscall;
use crate::syscall::{Action, Pending};
use crate::trap;
use crate::trap::{TrapAction, TrapFrame};
use crate::uproc;
use crate::usercopy;
use crate::uvm;
use crate::vm::Vm;

verus! {

// --- What is left alone ------------------------------------------------------

/// Every slot but `c` is as before.
pub open spec fn others_kept(k1: Kernel, k2: Kernel, c: int) -> bool {
    &&& k2.sched.current == k1.sched.current
    &&& k2.sched.procs@.len() == k1.sched.procs@.len()
    &&& forall|i: int|
        0 <= i < k1.sched.procs@.len() && i != c ==> #[trigger] k2.sched.procs@[i]
            == k1.sched.procs@[i]
}

/// The running process has gone to sleep, which is all that has changed of it, and
/// no other process has changed.
pub open spec fn asleep_only(k1: Kernel, k2: Kernel) -> bool {
    let c = k1.sched.current->0 as int;
    &&& others_kept(k1, k2, c)
    &&& 0 <= c < k2.sched.procs@.len()
    &&& k2.sched.procs@[c] is Some
    &&& k2.sched.procs@[c]->0.state is Sleeping
    &&& k2.sched.procs@[c]->0 == (Process {
        state: k2.sched.procs@[c]->0.state,
        ..k1.sched.procs@[c]->0
    })
}

/// The running thread gives up the CPU, to go on with interrupts as they are.
pub open spec fn gives_up(k: Kernel, h: Handoff) -> bool {
    &&& k.sched.current == Some(h.slot)
    &&& h.intena == (k.hart.sstatus & 2 != 0)
}

// --- A process's memory ------------------------------------------------------

/// User mode may read the byte at `va` (for `write`, store there too): a valid entry
/// with the U bit (and the W bit) maps its page.
pub open spec fn may(m: Map<int, u64>, root: int, va: int, write: bool) -> bool {
    let e = sv39::leaf(m, root, va / 4096);
    &&& 0 <= va < 0x40_0000_0000
    &&& e & 1 != 0
    &&& e & 16 != 0
    &&& write ==> e & 4 != 0
}

/// The byte at `va`.
pub open spec fn byte(m: Map<int, u64>, root: int, va: int) -> u8 {
    physmem::byte_at(m, sv39::pte_pa(sv39::leaf(m, root, va / 4096)) + va % 4096)
}

/// The memory at `ptr` holds `bytes`, and user mode may read them.
pub open spec fn holds(m: Map<int, u64>, root: int, ptr: int, bytes: Seq<u8>) -> bool {
    forall|i: int|
        0 <= i < bytes.len() ==> #[trigger] may(m, root, ptr + i, false) && byte(m, root, ptr + i)
            == bytes[i]
}

/// User mode may store to each of the `len` bytes at `ptr`.
pub open spec fn writable(m: Map<int, u64>, root: int, ptr: int, len: int) -> bool {
    forall|i: int| 0 <= i < len ==> #[trigger] may(m, root, ptr + i, true)
}

/// A range passes exactly if user mode may touch each of its bytes.
proof fn lemma_range(m: Map<int, u64>, root: int, ptr: u64, len: int, write: bool)
    requires
        0 < len,
    ensures
        usercopy::user_range(m, root, ptr, len, write) <==> forall|i: int|
            0 <= i < len ==> #[trigger] may(m, root, ptr + i, write),
{
    if usercopy::user_range(m, root, ptr, len, write) {
        assert forall|i: int| 0 <= i < len implies #[trigger] may(m, root, ptr + i, write) by {
            assert(usercopy::in_range(ptr as int, len, (ptr + i) / 4096));
        }
    }
    if forall|i: int| 0 <= i < len ==> #[trigger] may(m, root, ptr + i, write) {
        assert(may(m, root, ptr + (len - 1), write));
        assert forall|vp: int| #[trigger] usercopy::in_range(ptr as int, len, vp) implies usercopy::user_access(
            m,
            root,
            vp,
            write,
        ) by {
            let i = if vp * 4096 <= ptr {
                0
            } else {
                vp * 4096 - ptr
            };
            assert(may(m, root, ptr + i, write));
            assert((ptr + i) / 4096 == vp);
        }
    }
}

/// What the memory holds is what a copy in gives.
proof fn lemma_holds(m: Map<int, u64>, root: int, ptr: u64, bytes: Seq<u8>)
    requires
        bytes.len() > 0,
    ensures
        holds(m, root, ptr as int, bytes) <==> usercopy::user_range(
            m,
            root,
            ptr,
            bytes.len() as int,
            false,
        ) && usercopy::user_bytes(m, root, ptr as int, bytes.len() as int) == bytes,
{
    let n = bytes.len() as int;
    lemma_range(m, root, ptr, n, false);
    let got = usercopy::user_bytes(m, root, ptr as int, n);
    if holds(m, root, ptr as int, bytes) {
        assert forall|i: int| 0 <= i < n implies got[i] == bytes[i] by {
            assert(may(m, root, ptr + i, false));
        }
        assert(got =~= bytes);
    }
    if usercopy::user_range(m, root, ptr, n, false) && got == bytes {
        assert forall|i: int| 0 <= i < n implies #[trigger] may(m, root, ptr + i, false) && byte(
            m,
            root,
            ptr + i,
        ) == bytes[i] by {
            assert(got[i] == bytes[i]);
        }
    }
}

/// Text that a process hands to the kernel: the kernel gets exactly the text whose
/// UTF-8 form the process's memory holds, if there is one.
proof fn lemma_text(k: Kernel, ptr: u64, len: u64, max: u64, text: Seq<char>)
    requires
        0 < len,
    ensures
        syscall::user_text(k, ptr, len, max) == Some(text) <==> len <= max
            && vstd::utf8::encode_utf8(text).len() == len && holds(
            k.vm.mem@,
            syscall::caller_root(k),
            ptr as int,
            vstd::utf8::encode_utf8(text),
        ),
{
    let m = k.vm.mem@;
    let root = syscall::caller_root(k);
    let bytes = vstd::utf8::encode_utf8(text);
    let got = usercopy::user_bytes(m, root, ptr as int, len as int);
    vstd::utf8::encode_utf8_valid_utf8(text);
    vstd::utf8::encode_utf8_decode_utf8(text);
    if bytes.len() == len {
        lemma_holds(m, root, ptr, bytes);
    }
    if syscall::user_text(k, ptr, len, max) == Some(text) {
        vstd::utf8::decode_utf8_encode_utf8(got);
    }
}

// --- Sleeping ----------------------------------------------------------------

/// A sleep, however short, gives up the CPU, and puts the caller and nobody else to
/// sleep.
pub proof fn lemma_sleep_blocks(
    k1: Kernel,
    k2: Kernel,
    f1: TrapFrame,
    f2: TrapFrame,
    kstack: u64,
    act: Action,
)
    requires
        k1.in_user_trap(),
        k1.timer.ticks() + syscall::SLEEP_MAX <= u64::MAX,
        f1.a7 == 5,
        syscall::dispatched(k1, k2, f1, f2, kstack, act),
    ensures
        act matches Action::Block(_, Pending::Sleep { .. }),
        gives_up(k1, act->Block_0),
        asleep_only(k1, k2),
        k2.vm == k1.vm,
        f2 == (TrapFrame { sepc: (f1.sepc + 4) as u64, ..f1 }),
{
    let c = k1.sched.current->0 as int;
    assert(proc::at(k1.sched.procs@, c) is Some);
}

/// A process that sleeps for a time is runnable after the next timer interrupt,
/// whoever runs then, and can look at the time again.
pub proof fn lemma_sleeper_woken(
    k1: Kernel,
    k2: Kernel,
    f1: TrapFrame,
    f2: TrapFrame,
    kstack: u64,
    act: Action,
    k3: Kernel,
    k4: Kernel,
    f3: TrapFrame,
    f4: TrapFrame,
    stval: u64,
    time: u64,
    act2: TrapAction,
)
    requires
        k1.in_user_trap(),
        k1.timer.ticks() + syscall::SLEEP_MAX <= u64::MAX,
        f1.a7 == 5,
        syscall::dispatched(k1, k2, f1, f2, kstack, act),
        k3.wf(),
        ({
            let c = k1.sched.current->0 as int;
            &&& proc::at(k3.sched.procs@, c) is Some
            &&& proc::at(k3.sched.procs@, c)->0.state == proc::at(k2.sched.procs@, c)->0.state
        }),
        trap::trapped(k3, k4, f3, f4, 0x8000_0000_0000_0005, stval, time, kstack, act2),
    ensures
        proc::at(k4.sched.procs@, k1.sched.current->0 as int) matches Some(p) && p.state
            == State::Runnable,
        k4.timer.ticks() == k3.timer.ticks() + 1 || k3.timer.ticks() == u64::MAX,
{
    lemma_timer_cause();
    let c = k1.sched.current->0 as int;
    assert(proc::at(k1.sched.procs@, c) is Some);
    assert(proc::at(proc::woken(k3.sched.procs@, crate::timer::TICK_CHAN), c) is Some);
}

/// The cause of a timer interrupt: the top bit, and 5.
pub proof fn lemma_timer_cause()
    ensures
        0x8000_0000_0000_0005u64 & 0x8000_0000_0000_0000 != 0,
        0x8000_0000_0000_0005u64 & !0x8000_0000_0000_0000u64 == 5,
{
    assert(0x8000_0000_0000_0005u64 & 0x8000_0000_0000_0000 != 0 && 0x8000_0000_0000_0005u64
        & !0x8000_0000_0000_0000u64 == 5) by (bit_vector);
}

// --- Waiting -----------------------------------------------------------------

/// A process that waits for another one which runs, could run or sleeps on any
/// channel goes to sleep; with that one dead, or no such process, it goes on.
pub proof fn lemma_wait_blocks(
    k1: Kernel,
    k2: Kernel,
    f1: TrapFrame,
    f2: TrapFrame,
    kstack: u64,
    act: Action,
    i: int,
)
    requires
        k1.in_user_trap(),
        f1.a7 == 13,
        syscall::dispatched(k1, k2, f1, f2, kstack, act),
    ensures
        ({
            let procs = k1.sched.procs@;
            let lives = 0 <= i < procs.len() && procs[i] is Some && procs[i]->0.pid == f1.a0 && (
            procs[i]->0.state is Runnable || procs[i]->0.state is Running
                || procs[i]->0.state is Sleeping);
            &&& lives ==> act is Block && asleep_only(k1, k2)
            &&& act is Block ==> act->Block_1 == (Pending::Join { pid: f1.a0 }) && gives_up(
                k1,
                act->Block_0,
            )
            &&& act is Block || act is Return
            &&& act is Return ==> f2 == (TrapFrame {
                a0: 0,
                sepc: (f1.sepc + 4) as u64,
                ..f1
            }) && k2.sched == k1.sched
            &&& (forall|j: int|
                0 <= j < procs.len() ==> (#[trigger] procs[j] is Some && procs[j]->0.pid == f1.a0
                    ==> procs[j]->0.state is Zombie)) ==> act is Return
        }),
{
    let procs = k1.sched.procs@;
    proc::lemma_unfinished(procs, f1.a0);
    assert(proc::at(procs, k1.sched.current->0 as int) is Some);
}

/// A process that waits goes on exactly once the one it waits for is dead or gone,
/// however often it has to look.
pub proof fn lemma_wait_ends(
    k1: Kernel,
    k2: Kernel,
    f1: TrapFrame,
    f2: TrapFrame,
    pid: u64,
    act: Action,
)
    requires
        k1.in_user_trap(),
        syscall::proceeded(k1, k2, f1, f2, Pending::Join { pid }, act),
    ensures
        act is Return || (act is Block && act->Block_1 == (Pending::Join { pid }) && asleep_only(
            k1,
            k2,
        )),
        act is Return ==> f2 == (TrapFrame { a0: 0, ..f1 }),
        act is Return <==> forall|i: int|
            0 <= i < k1.sched.procs@.len() ==> (#[trigger] k1.sched.procs@[i] is Some
                && k1.sched.procs@[i]->0.pid == pid ==> k1.sched.procs@[i]->0.state is Zombie),
{
    proc::lemma_unfinished(k1.sched.procs@, pid);
    assert(proc::at(k1.sched.procs@, k1.sched.current->0 as int) is Some);
}

/// Whoever waits for a process is runnable once that process has exited or was
/// killed, and when it looks again it goes on.
#[verifier::spinoff_prover]
#[verifier::rlimit(40)]
pub proof fn lemma_exit_ends_wait(
    k1: Kernel,
    k2: Kernel,
    f1: TrapFrame,
    f2: TrapFrame,
    kstack: u64,
    act: Action,
    k3: Kernel,
    k4: Kernel,
    f3: TrapFrame,
    f4: TrapFrame,
    act2: Action,
)
    requires
        k1.in_user_trap(),
        f1.a7 == 13,
        syscall::dispatched(k1, k2, f1, f2, kstack, act),
        act is Block,
        k3.in_user_trap(),
        f3.a7 == 2,
        syscall::dispatched(k3, k4, f3, f4, kstack, act2),
        k3.sched.running()->0.pid == f1.a0,
        ({
            let c = k1.sched.current->0 as int;
            &&& k3.sched.current->0 != c
            &&& proc::at(k3.sched.procs@, c) is Some
            &&& proc::at(k3.sched.procs@, c)->0.state == proc::at(k2.sched.procs@, c)->0.state
        }),
    ensures
        proc::at(k4.sched.procs@, k1.sched.current->0 as int) matches Some(p) && p.state
            == State::Runnable,
        forall|i: int|
            0 <= i < k4.sched.procs@.len() ==> (#[trigger] k4.sched.procs@[i] is Some
                && k4.sched.procs@[i]->0.pid == f1.a0 ==> k4.sched.procs@[i]->0.state is Zombie),
{
    let c = k1.sched.current->0 as int;
    let d = k3.sched.current->0 as int;
    let procs = k3.sched.procs@;
    assert(proc::at(k1.sched.procs@, c) is Some);
    assert(proc::at(procs, d) is Some);
    assert forall|i: int| 0 <= i < k4.sched.procs@.len() && #[trigger] k4.sched.procs@[i] is Some
        && k4.sched.procs@[i]->0.pid == f1.a0 implies k4.sched.procs@[i]->0.state is Zombie by {
        assert(proc::at(procs, i) is Some);
    }
}

/// A process that asks at tick `t` to sleep for `ms` milliseconds goes on only once
/// so many ticks of 10 ms have passed since that they last for `ms`, and at least
/// one; and it does go on as soon as one tick more than that has passed. (A request
/// too long to count lasts for as many ticks as can be counted.)
pub proof fn lemma_sleep_lasts(
    k1: Kernel,
    k2: Kernel,
    f1: TrapFrame,
    f2: TrapFrame,
    kstack: u64,
    act: Action,
    k3: Kernel,
    k4: Kernel,
    f3: TrapFrame,
    f4: TrapFrame,
    act2: Action,
)
    requires
        k1.in_user_trap(),
        k1.timer.ticks() + syscall::SLEEP_MAX <= u64::MAX,
        f1.a7 == 5,
        syscall::dispatched(k1, k2, f1, f2, kstack, act),
        act matches Action::Block(_, pending) && syscall::proceeded(
            k3,
            k4,
            f3,
            f4,
            pending,
            act2,
        ),
    ensures
        ({
            let ms = f1.a0;
            let passed = k3.timer.ticks() - k1.timer.ticks();
            &&& act2 is Return || (act2 is Block && act2->Block_1 == act->Block_1)
            &&& act2 is Return ==> passed >= 1 && f4 == (TrapFrame { a0: 0, ..f3 })
            &&& act2 is Return && ms * 100 <= u64::MAX ==> passed * 10 >= ms
            &&& act2 is Return && ms * 100 > u64::MAX ==> passed * 1000 >= u64::MAX
            &&& passed > 1 && (passed - 1) * 10 >= ms ==> act2 is Return
        }),
{
    let c = k1.sched.current->0 as int;
    assert(proc::at(k1.sched.procs@, c) is Some);
}

// --- Forking -----------------------------------------------------------------

/// The child of a fork: one process more, under a pid that nobody had and that the
/// parent is told, in a slot that was empty. It has the parent's heap and its open
/// files, each at the same place. The parent has the pid in a0 and goes on behind
/// the call; it and everybody else is as before.
#[verifier::spinoff_prover]
#[verifier::rlimit(40)]
pub proof fn lemma_fork_child(
    k1: Kernel,
    k2: Kernel,
    f1: TrapFrame,
    f2: TrapFrame,
    kstack: u64,
    act: Action,
) -> (i: int)
    requires
        k1.in_user_trap(),
        k1.sched.next_pid < u64::MAX,
        kstack + 0x4000 <= u64::MAX,
        f1.a7 == 12,
        syscall::dispatched(k1, k2, f1, f2, kstack, act),
        act is Return,
    ensures
        k2.sched.next_pid == k1.sched.next_pid + 1,
        0 <= i < k2.sched.procs@.len(),
        i < k1.sched.procs@.len() ==> k1.sched.procs@[i] is None,
        k2.sched.procs@[i] is Some,
        ({
            let p = k1.sched.procs@[k1.sched.current->0 as int]->0;
            let q = k2.sched.procs@[i]->0;
            &&& f2 == (TrapFrame { a0: q.pid, sepc: (f1.sepc + 4) as u64, ..f1 })
            &&& q.pid != 0
            &&& forall|j: int|
                0 <= j < k1.sched.procs@.len() ==> (#[trigger] k1.sched.procs@[j] is Some
                    ==> k1.sched.procs@[j]->0.pid != q.pid)
            &&& q.state == State::Runnable
            &&& q.heap_base == p.heap_base
            &&& q.heap_brk == p.heap_brk
            &&& forall|fd: int| 0 <= fd < 8 ==> #[trigger] q.fds@[fd] == p.fds@[fd]
            &&& q.kstack == kstack
            &&& q.kstack_top % 16 == 0
            &&& kstack + 0x4000 - 16 < q.kstack_top <= kstack + 0x4000
            &&& q.context.ra == k1.sched.trampoline
            &&& q.context.sp == q.kstack_top
            &&& q.page_table != p.page_table
            &&& q.page_table != k1.vm.root
        }),
        k2.sched.current == k1.sched.current,
        k2.sched.procs@.len() >= k1.sched.procs@.len(),
        k2.sched.procs@.len() <= k1.sched.procs@.len() + 1,
        forall|j: int|
            0 <= j < k2.sched.procs@.len() && j != i ==> j < k1.sched.procs@.len()
                && #[trigger] k2.sched.procs@[j] == k1.sched.procs@[j],
{
    let s = k1.sched;
    let c = s.current->0 as int;
    assert(proc::at(s.procs@, c) is Some);
    proc::lemma_first_free(s.procs@, 0);
    let i = proc::new_slot(s.procs@);
    fairness::lemma_stack_start(kstack);
    assert(uproc::table_at(s.procs@, c) == s.running()->0.page_table);
    uproc::lemma_table(k1.vm, s.procs@, c);
    kalloc::lemma_pages(k1.vm.kmem, k1.vm.mem@);
    let t = k1.vm.kmem.pages()[0];
    assert(k1.vm.kmem.pages().contains(t));
    uvm::lemma_shared(k1.vm.mem@, s.running()->0.page_table as int, k1.vm.root as int, k1.vm.start());
    assert forall|j: int| 0 <= j < s.procs@.len() && #[trigger] s.procs@[j] is Some implies s.procs@[j]->0.pid
        != s.next_pid by {
        assert(proc::at(s.procs@, j) is Some);
    }
    i
}

/// A forked child comes out of the fork where its parent did: the first thing it
/// does is to restore every register as the parent had it at the call, the program
/// counter behind the call, except that a0 is 0.
#[verifier::spinoff_prover]
#[verifier::rlimit(40)]
pub proof fn lemma_fork_resumes(
    k1: Kernel,
    k2: Kernel,
    f1: TrapFrame,
    f2: TrapFrame,
    kstack: u64,
    act: Action,
    q: Process,
    h1: Hart,
    h2: Hart,
    first: First,
    i: int,
)
    requires
        k1.in_user_trap(),
        k1.sched.next_pid < u64::MAX,
        kstack + 0x4000 <= u64::MAX,
        f1.a7 == 12,
        f1.sepc + 4 <= u64::MAX,
        syscall::dispatched(k1, k2, f1, f2, kstack, act),
        act is Return,
        0 <= i < k2.sched.procs@.len(),
        k2.sched.procs@[i] is Some,
        k2.sched.procs@[i]->0.pid == f2.a0,
        q == (Process { state: q.state, context: q.context, ..k2.sched.procs@[i]->0 }),
        proc::entered(q, h1, h2, first),
    ensures
        first is Restore,
        first->Restore_1 == q.kstack_top,
        h2.sstatus & 2 == 0,
        h2.noff == 0,
        h2.satp == h1.satp,
        ({
            let g = first->Restore_0;
            &&& g.a0 == 0
            &&& g.sepc == f1.sepc + 4
            &&& g.sstatus == f1.sstatus
            &&& g.ra == f1.ra
            &&& g.sp == f1.sp
            &&& g.gp == f1.gp
            &&& g.tp == f1.tp
            &&& g.t0 == f1.t0
            &&& g.t1 == f1.t1
            &&& g.t2 == f1.t2
            &&& g.t3 == f1.t3
            &&& g.t4 == f1.t4
            &&& g.t5 == f1.t5
            &&& g.t6 == f1.t6
            &&& g.s0 == f1.s0
            &&& g.s1 == f1.s1
            &&& g.s2 == f1.s2
            &&& g.s3 == f1.s3
            &&& g.s4 == f1.s4
            &&& g.s5 == f1.s5
            &&& g.s6 == f1.s6
            &&& g.s7 == f1.s7
            &&& g.s8 == f1.s8
            &&& g.s9 == f1.s9
            &&& g.s10 == f1.s10
            &&& g.s11 == f1.s11
            &&& g.a1 == f1.a1
            &&& g.a2 == f1.a2
            &&& g.a3 == f1.a3
            &&& g.a4 == f1.a4
            &&& g.a5 == f1.a5
            &&& g.a6 == f1.a6
            &&& g.a7 == f1.a7
        }),
{
    let j = lemma_fork_child(k1, k2, f1, f2, kstack, act);
    riscv::lemma_sie(riscv::with_sie(h1.sstatus));
    if i != j {
        assert(k2.sched.procs@[i] == k1.sched.procs@[i]);
    }
    assert(i == j);
    proc::lemma_first_free(k1.sched.procs@, 0);
    assert(i == proc::new_slot(k1.sched.procs@)) by {
        if i != proc::new_slot(k1.sched.procs@) {
            assert(k2.sched.procs@[i] == k1.sched.procs@[i]);
        }
    }
}

/// A forked child's memory: at every user address it has what its parent has there,
/// with the same rights, on a page that is not the parent's, nor was anybody's.
#[verifier::spinoff_prover]
#[verifier::rlimit(40)]
pub proof fn lemma_fork_memory(
    k1: Kernel,
    k2: Kernel,
    f1: TrapFrame,
    f2: TrapFrame,
    kstack: u64,
    act: Action,
    i: int,
    va: int,
)
    requires
        k1.in_user_trap(),
        k2.wf(),
        k1.sched.next_pid < u64::MAX,
        kstack + 0x4000 <= u64::MAX,
        f1.a7 == 12,
        syscall::dispatched(k1, k2, f1, f2, kstack, act),
        act is Return,
        0 <= i < k2.sched.procs@.len(),
        k2.sched.procs@[i] is Some,
        k2.sched.procs@[i]->0.pid == f2.a0,
        0x4000_0000 <= va < 0x8000_0000,
    ensures
        ({
            let m1 = k1.vm.mem@;
            let m2 = k2.vm.mem@;
            let p = k1.sched.procs@[k1.sched.current->0 as int]->0.page_table as int;
            let q = k2.sched.procs@[i]->0.page_table as int;
            let e = sv39::leaf(m1, p, va / 4096);
            let g = sv39::leaf(m2, q, va / 4096);
            &&& (g & 1 != 0) == (e & 1 != 0)
            &&& e & 1 != 0 ==> {
                &&& g & 2 == e & 2
                &&& g & 4 == e & 4
                &&& g & 8 == e & 8
                &&& g & 16 == e & 16
                &&& physmem::byte_at(m2, sv39::pte_pa(g) + va % 4096) == physmem::byte_at(
                    m1,
                    sv39::pte_pa(e) + va % 4096,
                )
                &&& k1.vm.kmem.pages().contains(sv39::pte_pa(g))
                &&& sv39::pte_pa(g) != sv39::pte_pa(e)
            }
        }),
{
    let m1 = k1.vm.mem@;
    let m2 = k2.vm.mem@;
    let s = k1.sched;
    let c = s.current->0 as int;
    let vp = va / 4096;
    assert(proc::at(s.procs@, c) is Some);
    let j = lemma_fork_child(k1, k2, f1, f2, kstack, act);
    if i != j {
        assert(k2.sched.procs@[i] == s.procs@[i]);
    }
    proc::lemma_first_free(s.procs@, 0);
    assert(i == proc::new_slot(s.procs@)) by {
        if i != proc::new_slot(s.procs@) {
            assert(k2.sched.procs@[i] == s.procs@[i]);
        }
    }
    let p = s.running()->0.page_table as int;
    let q = k2.sched.procs@[i]->0.page_table as int;
    assert(uproc::table_at(s.procs@, c) == p);
    uproc::lemma_table(k1.vm, s.procs@, c);
    assert(proc::at(k2.sched.procs@, i) is Some);
    assert(uproc::table_at(k2.sched.procs@, i) == q);
    uproc::lemma_table(k2.vm, k2.sched.procs@, i);
    assert(uvm::user_page(vp));
    kalloc::lemma_pages(k1.vm.kmem, m1);
    assert(k1.vm.kmem.pages().contains(k1.vm.kmem.pages()[0]));
    assert(uvm::cloned(m1, p, m2, q, vp));
    sv39::lemma_table_pte(0);
    let e = sv39::leaf(m1, p, vp);
    if uvm::frame(m1, p, vp) >= 0 {
        uvm::lemma_user_page(m1, p, k1.vm.root as int, k1.vm.start(), vp);
        uvm::lemma_user_page(m2, q, k2.vm.root as int, k2.vm.start(), vp);
        let f = uvm::frame(m1, p, vp);
        let g = uvm::frame(m2, q, vp);
        let perm = e & 0x1e;
        sv39::lemma_rights(e);
        sv39::lemma_leaf_pte(g as u64, perm);
        let o = va % 4096;
        assert(m2[g + (o - o % 8)] == m1[f + (o - o % 8)]);
        assert(uvm::owns(m2, q, g));
        assert(uvm::owns(m1, p, f));
    }
}

// --- Replacing the program ---------------------------------------------------

/// A process that replaced its program is the same process: its pid, its name, its
/// kernel stack and its open files, each at the same place, are what they were. Its
/// heap is empty. It enters at the start of the code with the stack pointer at the
/// top of the stack, in an address space that is not the old one and is active.
/// Nobody else has changed.
#[verifier::spinoff_prover]
#[verifier::rlimit(40)]
pub proof fn lemma_exec_process(
    k1: Kernel,
    k2: Kernel,
    f1: TrapFrame,
    f2: TrapFrame,
    kstack: u64,
    act: Action,
)
    requires
        k1.in_user_trap(),
        k2.wf(),
        f1.a7 == 14,
        syscall::dispatched(k1, k2, f1, f2, kstack, act),
        act is Enter,
    ensures
        others_kept(k1, k2, k1.sched.current->0 as int),
        ({
            let c = k1.sched.current->0 as int;
            let p = k1.sched.procs@[c]->0;
            let q = k2.sched.procs@[c]->0;
            &&& 0 <= c < k2.sched.procs@.len()
            &&& k2.sched.procs@[c] is Some
            &&& q.pid == p.pid
            &&& q.name == p.name
            &&& q.state == p.state
            &&& q.kstack == p.kstack
            &&& q.kstack_top == p.kstack_top
            &&& forall|fd: int| 0 <= fd < 8 ==> #[trigger] q.fds@[fd] == p.fds@[fd]
            &&& q.heap_base == 0x4200_0000
            &&& q.heap_brk == 0x4200_0000
            &&& q.page_table != p.page_table
            &&& q.user_table == Some(q.page_table)
            &&& act->Enter_0.sp == 0x4100_0000
            &&& k2.hart.sepc == 0x4000_0000
            &&& k2.hart.sscratch == p.kstack_top
            &&& k2.hart.satp == 0x8000_0000_0000_0000 | (q.page_table >> 12u64)
            &&& k2.hart.sstatus & 0x100 == 0
            &&& k2.hart.sstatus & 0x20 != 0
            &&& k2.hart.sstatus & 2 == 0
        }),
{
    let c = k1.sched.current->0 as int;
    assert(proc::at(k1.sched.procs@, c) is Some);
    assert(uproc::table_at(k1.sched.procs@, c) == k1.sched.running()->0.page_table);
    uproc::lemma_table(k1.vm, k1.sched.procs@, c);
    uvm::lemma_shared(
        k1.vm.mem@,
        k1.sched.running()->0.page_table as int,
        k1.vm.root as int,
        k1.vm.start(),
    );
    fairness::lemma_user_status(riscv::without_sie(k1.hart.sstatus));
    kalloc::lemma_pages(k1.vm.kmem, k1.vm.mem@);
    assert(k1.vm.kmem.pages().contains(k1.vm.kmem.pages()[0]));
}

/// What a process asks for is what it gets: given the name of a program (at the
/// process's address a0, a1 bytes of UTF-8, at most 64), it runs the first program
/// of that name, unless pages are short. Given a name that no program has, it goes
/// on as before, with -1.
#[verifier::spinoff_prover]
#[verifier::rlimit(40)]
pub proof fn lemma_exec_named(
    k1: Kernel,
    k2: Kernel,
    f1: TrapFrame,
    f2: TrapFrame,
    kstack: u64,
    act: Action,
    name: Seq<char>,
)
    requires
        k1.in_user_trap(),
        k2.wf(),
        f1.a7 == 14,
        syscall::dispatched(k1, k2, f1, f2, kstack, act),
        0 < f1.a1 <= 64,
        vstd::utf8::encode_utf8(name).len() == f1.a1,
        holds(
            k1.vm.mem@,
            syscall::caller_root(k1),
            f1.a0 as int,
            vstd::utf8::encode_utf8(name),
        ),
    ensures
        (forall|i: int| 0 <= i < k1.programs@.len() ==> (#[trigger] k1.programs@[i]).name@ != name)
            ==> act is Return && k2.sched == k1.sched && k2.vm == k1.vm && f2 == (TrapFrame {
            a0: u64::MAX,
            sepc: (f1.sepc + 4) as u64,
            ..f1
        }),
        forall|i: int|
            0 <= i < k1.programs@.len() && (#[trigger] k1.programs@[i]).name@ == name && (forall|
                j: int,
            |
                0 <= j < i ==> (#[trigger] k1.programs@[j]).name@ != name) ==> {
                &&& act is Enter || act is OutOfPages
                &&& act is Enter ==> runs(k1, k2, k1.programs@[i])
                &&& k1.vm.kmem.pages().len() >= (k1.programs@[i].len + 4095) / 4096 + 11
                    ==> act is Enter
            },
{
    let text = syscall::user_text(k1, f1.a0, f1.a1, syscall::PATH_MAX);
    lemma_text(k1, f1.a0, f1.a1, syscall::PATH_MAX, name);
    assert(text == Some(name));
    let n = kernel::find_program(k1.programs@, name, 0);
    lemma_program_found(k1.programs@, name, 0);
    if n < k1.programs@.len() {
        assert forall|i: int|
            0 <= i < k1.programs@.len() && (#[trigger] k1.programs@[i]).name@ == name && (forall|
                j: int,
            |
                0 <= j < i ==> (#[trigger] k1.programs@[j]).name@ != name) implies i == n by {
            if i < n {
                assert(k1.programs@[i].name@ != name);
            }
            if n < i {
                assert(k1.programs@[n].name@ != name);
            }
        }
        assert(k1.programs@[n].name@ == name);
        assert(kernel::program_ok(k1.programs@[n], k1.vm));
        if act is Enter {
            lemma_exec_runs(k1, k2, f1, f2, kstack, act, n);
        }
    }
}

/// The first program of a name is found, and nothing else.
pub proof fn lemma_program_found(programs: Seq<Program>, name: Seq<char>, i: int)
    requires
        0 <= i <= programs.len(),
    ensures
        i <= kernel::find_program(programs, name, i) <= programs.len(),
        kernel::find_program(programs, name, i) < programs.len() ==> programs[kernel::find_program(
            programs,
            name,
            i,
        )].name@ == name,
        forall|j: int|
            i <= j < kernel::find_program(programs, name, i) ==> (#[trigger] programs[j]).name@
                != name,
    decreases programs.len() - i,
{
    if i < programs.len() && programs[i].name@ != name {
        lemma_program_found(programs, name, i + 1);
    }
}

/// The running process has the program's image, as it lies in the kernel's memory.
pub open spec fn runs(k1: Kernel, k2: Kernel, prog: Program) -> bool {
    image_at(k1.vm.mem@, k2.vm.mem@, k2.sched.running()->0.page_table as int, prog)
}

/// The address space `root` of the memory `m` holds the program's image, as it lies in
/// the memory `m1`, and user mode may execute and not write it; a page of zeroes below
/// the top of the stack, which user mode may write and not execute; and nothing else.
pub open spec fn image_at(m1: Map<int, u64>, m: Map<int, u64>, root: int, prog: Program) -> bool {
    &&& forall|o: int|
        0 <= o < prog.len ==> {
            &&& #[trigger] may(m, root, 0x4000_0000 + o, false)
            &&& sv39::leaf(m, root, (0x4000_0000 + o) / 4096) & 2 != 0
            &&& sv39::leaf(m, root, (0x4000_0000 + o) / 4096) & 8 != 0
            &&& !may(m, root, 0x4000_0000 + o, true)
            &&& byte(m, root, 0x4000_0000 + o) == physmem::byte_at(m1, prog.addr + o)
        }
    &&& forall|o: int|
        0 <= o < 4096 ==> {
            &&& #[trigger] may(m, root, 0x40ff_f000 + o, true)
            &&& sv39::leaf(m, root, (0x40ff_f000 + o) / 4096) & 2 != 0
            &&& sv39::leaf(m, root, (0x40ff_f000 + o) / 4096) & 8 == 0
            &&& byte(m, root, 0x40ff_f000 + o) == 0
        }
    &&& forall|va: int|
        0x4000_0000 <= va < 0x8000_0000 && (va - 0x4000_0000) / 4096 >= (prog.len + 4095) / 4096
            && !(0x40ff_f000 <= va < 0x4100_0000) ==> !#[trigger] may(m, root, va, false)
}

/// A program entered by exec is the one that was asked for.
#[verifier::spinoff_prover]
#[verifier::rlimit(40)]
proof fn lemma_exec_runs(
    k1: Kernel,
    k2: Kernel,
    f1: TrapFrame,
    f2: TrapFrame,
    kstack: u64,
    act: Action,
    n: int,
)
    requires
        k1.in_user_trap(),
        k2.wf(),
        f1.a7 == 14,
        syscall::dispatched(k1, k2, f1, f2, kstack, act),
        act is Enter,
        0 <= n < k1.programs@.len(),
        syscall::user_text(k1, f1.a0, f1.a1, syscall::PATH_MAX) is Some,
        n == kernel::find_program(
            k1.programs@,
            syscall::user_text(k1, f1.a0, f1.a1, syscall::PATH_MAX)->0,
            0,
        ),
    ensures
        runs(k1, k2, k1.programs@[n]),
{
    let prog = k1.programs@[n];
    let m = k2.vm.mem@;
    let c = k1.sched.current->0 as int;
    assert(proc::at(k1.sched.procs@, c) is Some);
    let root = k2.sched.running()->0.page_table as int;
    kalloc::lemma_pages(k1.vm.kmem, k1.vm.mem@);
    assert(k1.vm.kmem.pages().contains(k1.vm.kmem.pages()[0]));
    assert(root == k1.vm.kmem.pages()[0]);
    assert(loader::loaded(k1.vm.mem@, m, root, prog.addr as int, prog.len as int));
    assert(kernel::program_ok(prog, k1.vm));
    assert(proc::at(k2.sched.procs@, c) is Some);
    assert(uproc::table_at(k2.sched.procs@, c) == root);
    uproc::lemma_table(k2.vm, k2.sched.procs@, c);
    lemma_loaded_runs(k1.vm.mem@, k2.vm, prog, root);
}

/// What the loader builds is what a program needs.
#[verifier::spinoff_prover]
#[verifier::rlimit(40)]
pub proof fn lemma_loaded_runs(m1: Map<int, u64>, vm: Vm, prog: Program, root: int)
    requires
        0 < prog.len <= loader::TEXT_MAX,
        uvm::space(vm, root),
        loader::loaded(m1, vm.mem@, root, prog.addr as int, prog.len as int),
    ensures
        image_at(m1, vm.mem@, root, prog),
{
    let m = vm.mem@;
    loader::lemma_perms();
    sv39::lemma_table_pte(0);
    assert forall|o: int| 0 <= o < prog.len implies {
        &&& #[trigger] may(m, root, 0x4000_0000 + o, false)
        &&& sv39::leaf(m, root, (0x4000_0000 + o) / 4096) & 2 != 0
        &&& sv39::leaf(m, root, (0x4000_0000 + o) / 4096) & 8 != 0
        &&& !may(m, root, 0x4000_0000 + o, true)
        &&& byte(m, root, 0x4000_0000 + o) == physmem::byte_at(m1, prog.addr + o)
    } by {
        let i = o / 4096;
        assert(loader::text_loaded(m1, m, root, prog.addr as int, prog.len as int, i));
        let f = uvm::frame(m, root, 0x4_0000 + i);
        uvm::lemma_user_page(m, root, vm.root as int, vm.start(), 0x4_0000 + i);
        sv39::lemma_leaf_pte(f as u64, loader::TEXT_PERM);
        assert((0x4000_0000 + o) / 4096 == 0x4_0000 + i && (0x4000_0000 + o) % 4096 == o % 4096);
        assert(physmem::byte_at(m, f + o % 4096) == physmem::byte_at(m1, prog.addr + o));
    }
    let s = uvm::frame(m, root, loader::STACK_VP as int);
    uvm::lemma_user_page(m, root, vm.root as int, vm.start(), loader::STACK_VP as int);
    sv39::lemma_leaf_pte(s as u64, loader::DATA_PERM);
    assert forall|o: int| 0 <= o < 4096 implies {
        &&& #[trigger] may(m, root, 0x40ff_f000 + o, true)
        &&& sv39::leaf(m, root, (0x40ff_f000 + o) / 4096) & 2 != 0
        &&& sv39::leaf(m, root, (0x40ff_f000 + o) / 4096) & 8 == 0
        &&& byte(m, root, 0x40ff_f000 + o) == 0
    } by {
        assert((0x40ff_f000 + o) / 4096 == 0x4_0fff && (0x40ff_f000 + o) % 4096 == o);
        assert(physmem::byte_at(m, s + o) == 0);
    }
    assert forall|va: int|
        0x4000_0000 <= va < 0x8000_0000 && (va - 0x4000_0000) / 4096 >= (prog.len + 4095) / 4096
            && !(0x40ff_f000 <= va < 0x4100_0000) implies !#[trigger] may(m, root, va, false) by {
        let vp = va / 4096;
        assert(uvm::user_page(vp) && vp != loader::STACK_VP);
        assert(sv39::leaf(m, root, vp) == 0);
    }
}

/// Only the name of a program, handed over where the process may read it, replaces
/// the process's program; anything else gives -1 and changes nothing.
pub proof fn lemma_exec_refused(
    k1: Kernel,
    k2: Kernel,
    f1: TrapFrame,
    f2: TrapFrame,
    kstack: u64,
    act: Action,
)
    requires
        k1.in_user_trap(),
        f1.a7 == 14,
        syscall::dispatched(k1, k2, f1, f2, kstack, act),
    ensures
        act is Enter || act is OutOfPages || act is Return,
        act is Return ==> k2.sched == k1.sched && k2.vm == k1.vm && f2 == (TrapFrame {
            a0: u64::MAX,
            sepc: (f1.sepc + 4) as u64,
            ..f1
        }),
        !(act is Return) ==> 0 < f1.a1 <= 64 && exists|i: int|
            0 <= i < k1.programs@.len() && named(k1, f1.a0, f1.a1, #[trigger] k1.programs@[i].name@),
{
    if !(act is Return) {
        let name = syscall::user_text(k1, f1.a0, f1.a1, syscall::PATH_MAX)->0;
        lemma_text(k1, f1.a0, f1.a1, syscall::PATH_MAX, name);
        let n = kernel::find_program(k1.programs@, name, 0);
        lemma_program_found(k1.programs@, name, 0);
        assert(named(k1, f1.a0, f1.a1, k1.programs@[n].name@));
    }
}

/// The calling process's `len` bytes at `ptr` spell `name`.
pub open spec fn named(k: Kernel, ptr: u64, len: u64, name: Seq<char>) -> bool {
    let root = k.sched.running()->0.page_table as int;
    &&& vstd::utf8::encode_utf8(name).len() == len
    &&& holds(k.vm.mem@, root, ptr as int, vstd::utf8::encode_utf8(name))
}

// --- The heap ----------------------------------------------------------------

/// Growing the heap moves its end, and nothing else: the process gets the old end,
/// and the new one is as many bytes further as it asked for. It is refused, with -1,
/// exactly if the end would lie above 0x4300_0000. No page is mapped yet.
pub proof fn lemma_sbrk(
    k1: Kernel,
    k2: Kernel,
    f1: TrapFrame,
    f2: TrapFrame,
    kstack: u64,
    act: Action,
)
    requires
        k1.in_user_trap(),
        f1.a7 == 11,
        syscall::dispatched(k1, k2, f1, f2, kstack, act),
    ensures
        ({
            let c = k1.sched.current->0 as int;
            let p = k1.sched.procs@[c]->0;
            let q = k2.sched.procs@[c]->0;
            &&& act is Return
            &&& others_kept(k1, k2, c)
            &&& k2.sched.procs@[c] is Some
            &&& k2.vm == k1.vm
            &&& p.heap_brk + f1.a0 <= 0x4300_0000 ==> f2.a0 == p.heap_brk && q.heap_brk
                == p.heap_brk + f1.a0
            &&& p.heap_brk + f1.a0 > 0x4300_0000 ==> f2.a0 == u64::MAX && q.heap_brk
                == p.heap_brk
            &&& q == (Process { heap_brk: q.heap_brk, ..p })
            &&& f2 == (TrapFrame { a0: f2.a0, sepc: (f1.sepc + 4) as u64, ..f1 })
        }),
{
    assert(proc::at(k1.sched.procs@, k1.sched.current->0 as int) is Some);
}

/// The pages a page fault at `va` takes: one to map, and the tables on the way to it
/// that are missing.
pub open spec fn fault_cost(m: Map<int, u64>, root: int, va: int) -> int {
    1 + (if sv39::l1(m, root, va / 4096 / 512 / 512) < 0 {
        1int
    } else {
        0
    }) + (if sv39::l0(m, root, va / 4096 / 512) < 0 {
        1int
    } else {
        0
    })
}

/// A load or store of a process that faults inside its heap, wherever that is, on a
/// page that is not mapped, is served as long as there are pages: a page that was
/// free is mapped there, readable and writable and full of zeroes, and the process
/// tries again. Nothing else is mapped, and no register changes.
#[verifier::spinoff_prover]
#[verifier::rlimit(40)]
pub proof fn lemma_heap_fault(
    k1: Kernel,
    k2: Kernel,
    f1: TrapFrame,
    f2: TrapFrame,
    cause: u64,
    va: u64,
    time: u64,
    kstack: u64,
    act: TrapAction,
)
    requires
        k1.in_user_trap(),
        f1.sstatus & 0x100 == 0,
        cause == 13 || cause == 15,
        trap::trapped(k1, k2, f1, f2, cause, va, time, kstack, act),
        k1.sched.running()->0.heap_base <= va < k1.sched.running()->0.heap_brk,
        sv39::leaf(
            k1.vm.mem@,
            k1.sched.running()->0.page_table as int,
            va as int / 4096,
        ) & 1 == 0,
        fault_cost(k1.vm.mem@, k1.sched.running()->0.page_table as int, va as int)
            <= k1.vm.kmem.pages().len(),
    ensures
        act is Retry,
        f2 == f1,
        k2.sched == k1.sched,
        ({
            let m = k2.vm.mem@;
            let root = k1.sched.running()->0.page_table as int;
            let e = sv39::leaf(m, root, va as int / 4096);
            &&& may(m, root, va as int, true)
            &&& e & 2 != 0
            &&& e & 8 == 0
            &&& k1.vm.kmem.pages().contains(sv39::pte_pa(e))
            &&& !k2.vm.kmem.pages().contains(sv39::pte_pa(e))
            &&& forall|o: int|
                0 <= o < 4096 ==> #[trigger] byte(m, root, va - va % 4096 + o) == 0
            &&& forall|vp: int|
                0x4_0000 <= vp < 0x8_0000 && vp != va as int / 4096 ==> #[trigger] sv39::leaf(
                    m,
                    root,
                    vp,
                ) == sv39::leaf(k1.vm.mem@, root, vp)
            &&& k2.vm.kmem.pages().len() + fault_cost(k1.vm.mem@, root, va as int)
                == k1.vm.kmem.pages().len()
        }),
{
    lemma_fault_cause(cause);
    let m = k2.vm.mem@;
    let c = k1.sched.current->0 as int;
    let root = k1.sched.running()->0.page_table as int;
    let vp = va as int / 4096;
    assert(proc::at(k1.sched.procs@, c) is Some);
    assert(vp / 0x4_0000 == vp / 512 / 512);
    assert(uvm::user_page(vp));
    assert(sv39::page_idx(vp));
    let f = k1.vm.kmem.pages()[0];
    kalloc::lemma_pages(k1.vm.kmem, k1.vm.mem@);
    assert(k1.vm.kmem.pages().contains(f));
    loader::lemma_perms();
    sv39::lemma_leaf_pte(f as u64, loader::DATA_PERM);
    let n = k1.vm.kmem.pages().len() - k2.vm.kmem.pages().len();
    assert(!k2.vm.kmem.pages().contains(f)) by {
        if k2.vm.kmem.pages().contains(f) {
            let j = k2.vm.kmem.pages().index_of(f);
            assert(k1.vm.kmem.pages()[j + n] == f);
        }
    }
    assert forall|o: int| 0 <= o < 4096 implies #[trigger] byte(m, root, va - va % 4096 + o)
        == 0 by {
        assert((va - va % 4096 + o) / 4096 == vp && (va - va % 4096 + o) % 4096 == o);
        let w = o - o % 8;
        assert(m[f + w] == 0);
        assert((f + o) % 8 == o % 8);
        loader::lemma_zero_byte(o % 8);
    }
}

/// Every address of memory that a process has just been given by growing its heap
/// can be loaded from and stored to: the fault is served as long as there are three
/// pages, unless the page is mapped already.
pub proof fn lemma_grown_heap_usable(
    k1: Kernel,
    k2: Kernel,
    f1: TrapFrame,
    f2: TrapFrame,
    kstack: u64,
    act: Action,
    k3: Kernel,
    f3: TrapFrame,
    f4: TrapFrame,
    cause: u64,
    va: u64,
    time: u64,
    act2: TrapAction,
)
    requires
        k1.in_user_trap(),
        f1.a7 == 11,
        syscall::dispatched(k1, k2, f1, f2, kstack, act),
        f2.a0 != u64::MAX,
        f2.a0 <= va < f2.a0 + f1.a0,
        k2.in_user_trap(),
        k2.vm.kmem.pages().len() >= 3,
        f3.sstatus & 0x100 == 0,
        cause == 13 || cause == 15,
        trap::trapped(k2, k3, f3, f4, cause, va, time, kstack, act2),
    ensures
        ({
            let root = k1.sched.running()->0.page_table as int;
            &&& sv39::leaf(k2.vm.mem@, root, va as int / 4096) & 1 == 0 ==> act2 is Retry && may(
                k3.vm.mem@,
                root,
                va as int,
                true,
            )
        }),
{
    lemma_sbrk(k1, k2, f1, f2, kstack, act);
    let c = k1.sched.current->0 as int;
    assert(proc::at(k1.sched.procs@, c) is Some);
    let root = k1.sched.running()->0.page_table as int;
    if sv39::leaf(k2.vm.mem@, root, va as int / 4096) & 1 == 0 {
        lemma_heap_fault(k2, k3, f3, f4, cause, va, time, kstack, act2);
    }
}

/// A load or store that faults outside the heap, or on a page that is mapped, is the
/// end of the process, and so is every other exception but a breakpoint and a call;
/// the cause is reported, nothing is mapped, and nobody else dies.
#[verifier::spinoff_prover]
#[verifier::rlimit(40)]
pub proof fn lemma_fault_kills(
    k1: Kernel,
    k2: Kernel,
    f1: TrapFrame,
    f2: TrapFrame,
    cause: u64,
    va: u64,
    time: u64,
    kstack: u64,
    act: TrapAction,
)
    requires
        k1.in_user_trap(),
        f1.sstatus & 0x100 == 0,
        cause < 64,
        cause != 3,
        cause != 8,
        trap::trapped(k1, k2, f1, f2, cause, va, time, kstack, act),
        cause == 13 || cause == 15 ==> va < k1.sched.running()->0.heap_base
            || k1.sched.running()->0.heap_brk <= va || sv39::leaf(
            k1.vm.mem@,
            k1.sched.running()->0.page_table as int,
            va as int / 4096,
        ) & 1 != 0,
    ensures
        act matches TrapAction::Kill { pid, code, sepc, stval, handoff } && pid
            == k1.sched.running()->0.pid && code == cause && sepc == f1.sepc && stval == va
            && gives_up(k1, handoff),
        k2.vm == k1.vm,
        ended(k1, k2),
{
    lemma_fault_cause(cause);
    let c = k1.sched.current->0 as int;
    assert(proc::at(k1.sched.procs@, c) is Some);
}

/// The running process is dead, whoever waits for an end is runnable, and no other
/// process has changed.
pub open spec fn ended(k1: Kernel, k2: Kernel) -> bool {
    let procs1 = k1.sched.procs@;
    let procs2 = k2.sched.procs@;
    let c = k1.sched.current->0 as int;
    &&& k2.sched.current == k1.sched.current
    &&& procs2.len() == procs1.len()
    &&& procs2[c] is Some
    &&& procs2[c]->0 == (Process { state: State::Zombie, ..procs1[c]->0 })
    &&& forall|i: int|
        0 <= i < procs1.len() && i != c ==> (#[trigger] procs2[i]) == if procs1[i] is Some
            && procs1[i]->0.state == State::Sleeping(proc::EXIT_CHAN) {
            Some(Process { state: State::Runnable, ..procs1[i]->0 })
        } else {
            procs1[i]
        }
}

/// An exception's cause is its code.
proof fn lemma_fault_cause(cause: u64)
    requires
        cause < 64,
    ensures
        cause & 0x8000_0000_0000_0000 == 0,
        cause & !0x8000_0000_0000_0000u64 == cause,
{
    assert(cause & 0x8000_0000_0000_0000 == 0 && cause & !0x8000_0000_0000_0000u64 == cause)
        by (bit_vector)
        requires
            cause < 64,
    ;
}

// --- The other calls ---------------------------------------------------------

/// The call is over: the process goes on behind it with `value` in a0 and every
/// other register as it was.
pub open spec fn resumed(f1: TrapFrame, f2: TrapFrame, value: u64) -> bool {
    f2 == (TrapFrame { a0: value, sepc: (f1.sepc + 4) as u64, ..f1 })
}

/// No process has changed, no memory, nothing that was typed and no file.
pub open spec fn untouched(k1: Kernel, k2: Kernel) -> bool {
    &&& k2.sched == k1.sched
    &&& k2.vm == k1.vm
    &&& k2.console.pending() == k1.console.pending()
    &&& k2.fs.files() == k1.fs.files()
    &&& k2.timer.ticks() == k1.timer.ticks()
}

/// A write prints the text that the process's memory holds at a0 in a1 bytes of
/// UTF-8, and gives their number. More than 1024 bytes, bytes the process may not
/// read, or no text at all give -1, and nothing is printed.
#[verifier::spinoff_prover]
#[verifier::rlimit(40)]
pub proof fn lemma_write(
    k1: Kernel,
    k2: Kernel,
    f1: TrapFrame,
    f2: TrapFrame,
    kstack: u64,
    act: Action,
)
    requires
        k1.in_user_trap(),
        f1.a7 == 1,
        f1.a1 > 0,
        syscall::dispatched(k1, k2, f1, f2, kstack, act),
    ensures
        untouched(k1, k2),
        forall|text: Seq<char>|
            f1.a1 <= 1024 && #[trigger] named(k1, f1.a0, f1.a1, text) ==> (act matches Action::Print(
                s,
            ) && s@ == text) && resumed(f1, f2, f1.a1),
        act is Print ==> f1.a1 <= 1024 && named(k1, f1.a0, f1.a1, act->Print_0@),
        !(act is Print) ==> act is Return && resumed(f1, f2, u64::MAX),
{
    assert forall|text: Seq<char>|
        f1.a1 <= 1024 && #[trigger] named(k1, f1.a0, f1.a1, text) implies (act matches Action::Print(
        s,
    ) && s@ == text) && resumed(f1, f2, f1.a1) by {
        lemma_text(k1, f1.a0, f1.a1, syscall::WRITE_MAX, text);
    }
    if act is Print {
        lemma_text(k1, f1.a0, f1.a1, syscall::WRITE_MAX, act->Print_0@);
    }
}

/// An exit ends the process, and reports its pid and the code it gave.
pub proof fn lemma_exit(
    k1: Kernel,
    k2: Kernel,
    f1: TrapFrame,
    f2: TrapFrame,
    kstack: u64,
    act: Action,
)
    requires
        k1.in_user_trap(),
        f1.a7 == 2,
        syscall::dispatched(k1, k2, f1, f2, kstack, act),
    ensures
        act matches Action::Exit { pid, code, handoff } && pid == k1.sched.running()->0.pid && code
            == f1.a0 && gives_up(k1, handoff),
        ended(k1, k2),
        k2.vm == k1.vm,
{
    assert(proc::at(k1.sched.procs@, k1.sched.current->0 as int) is Some);
}

/// A process that yields stays runnable, and gets 0 when its turn comes; nobody else
/// is concerned.
pub proof fn lemma_yield(
    k1: Kernel,
    k2: Kernel,
    f1: TrapFrame,
    f2: TrapFrame,
    kstack: u64,
    act: Action,
)
    requires
        k1.in_user_trap(),
        f1.a7 == 3,
        syscall::dispatched(k1, k2, f1, f2, kstack, act),
    ensures
        act matches Action::Yield(h) && gives_up(k1, h),
        resumed(f1, f2, 0),
        k2.vm == k1.vm,
        others_kept(k1, k2, k1.sched.current->0 as int),
        k2.sched.running() == Some(
            Process { state: State::Runnable, ..k1.sched.running()->0 },
        ),
{
    assert(proc::at(k1.sched.procs@, k1.sched.current->0 as int) is Some);
}

/// A process is told its own pid, which nobody else has.
pub proof fn lemma_getpid(
    k1: Kernel,
    k2: Kernel,
    f1: TrapFrame,
    f2: TrapFrame,
    kstack: u64,
    act: Action,
    i: int,
)
    requires
        k1.in_user_trap(),
        f1.a7 == 4,
        syscall::dispatched(k1, k2, f1, f2, kstack, act),
        0 <= i < k1.sched.procs@.len(),
        k1.sched.procs@[i] is Some,
    ensures
        act is Return,
        untouched(k1, k2),
        resumed(f1, f2, f2.a0),
        k1.sched.procs@[i]->0.pid == f2.a0 <==> k1.sched.current == Some(i as usize),
{
    let c = k1.sched.current->0 as int;
    assert(proc::at(k1.sched.procs@, c) is Some);
    assert(proc::at(k1.sched.procs@, i) is Some);
    assert(i < k1.sched.procs.len());
}

/// A call that does not exist gives -1 and does nothing.
pub proof fn lemma_unknown(
    k1: Kernel,
    k2: Kernel,
    f1: TrapFrame,
    f2: TrapFrame,
    kstack: u64,
    act: Action,
)
    requires
        k1.in_user_trap(),
        f1.a7 == 0 || f1.a7 > 14,
        syscall::dispatched(k1, k2, f1, f2, kstack, act),
    ensures
        act == (Action::Unknown { pid: k1.sched.running()->0.pid, number: f1.a7 }),
        untouched(k1, k2),
        resumed(f1, f2, u64::MAX),
{
}

/// The bytes were put where the process asked for them, and no other byte of its
/// memory has changed; its map has not changed either.
pub open spec fn delivered(k1: Kernel, k2: Kernel, ptr: u64, bytes: Seq<u8>) -> bool {
    let m1 = k1.vm.mem@;
    let m2 = k2.vm.mem@;
    let root = k1.sched.running()->0.page_table as int;
    &&& holds(m2, root, ptr as int, bytes)
    &&& forall|va: int|
        0x4000_0000 <= va < 0x8000_0000 ==> (#[trigger] may(m2, root, va, false) == may(
            m1,
            root,
            va,
            false,
        ) && may(m2, root, va, true) == may(m1, root, va, true))
    &&& forall|va: int|
        may(m1, root, va, false) && !(ptr <= va < ptr + bytes.len()) ==> #[trigger] byte(
            m2,
            root,
            va,
        ) == byte(m1, root, va)
}

/// A copy out delivers.
#[verifier::spinoff_prover]
#[verifier::rlimit(40)]
proof fn lemma_delivered(k1: Kernel, k2: Kernel, ptr: u64, bytes: Seq<u8>)
    requires
        k1.in_user_trap(),
        k2.wf(),
        bytes.len() > 0,
        writable(k1.vm.mem@, syscall::caller_root(k1), ptr as int, bytes.len() as int),
        syscall::copied_out(k1.vm, k2.vm, syscall::caller_root(k1), ptr, bytes),
    ensures
        delivered(k1, k2, ptr, bytes),
        syscall::copy_result(k1.vm, syscall::caller_root(k1), ptr, bytes.len() as int)
            == bytes.len() as u64,
{
    let m1 = k1.vm.mem@;
    let m2 = k2.vm.mem@;
    let n = bytes.len() as int;
    let c = k1.sched.current->0 as int;
    let root = syscall::caller_root(k1);
    lemma_range(m1, root, ptr, n, true);
    assert(proc::at(k1.sched.procs@, c) is Some);
    assert(uproc::table_at(k1.sched.procs@, c) == root);
    uproc::lemma_table(k1.vm, k1.sched.procs@, c);
    usercopy::lemma_written(k1.vm, k2.vm, root, ptr, n);
    assert forall|vp: int| sv39::page_idx(vp) implies #[trigger] sv39::leaf(m2, root, vp)
        == sv39::leaf(m1, root, vp) by {}
    isolation::lemma_copy_round_trip(k1.vm, k2.vm, root, ptr, bytes);
    lemma_holds(m2, root, ptr, bytes);
    assert forall|va: int| 0x4000_0000 <= va < 0x8000_0000 implies (#[trigger] may(
        m2,
        root,
        va,
        false,
    ) == may(m1, root, va, false) && may(m2, root, va, true) == may(m1, root, va, true)) by {
        assert(sv39::page_idx(va / 4096));
    }
    assert forall|va: int|
        may(m1, root, va, false) && !(ptr <= va < ptr + bytes.len()) implies #[trigger] byte(
        m2,
        root,
        va,
    ) == byte(m1, root, va) by {
        assert(sv39::page_idx(va / 4096));
        lemma_elsewhere(k1.vm, root, ptr, n, va);
        let b = usercopy::phys(m1, root, va);
        assert(physmem::byte_at(m2, b) == physmem::byte_at(m1, b));
    }
}

/// Different addresses of a process have different bytes behind them.
#[verifier::spinoff_prover]
#[verifier::rlimit(40)]
proof fn lemma_elsewhere(vm: Vm, root: int, ptr: u64, n: int, va: int)
    requires
        vm.wf(),
        vm.root != 0,
        uvm::space(vm, root),
        writable(vm.mem@, root, ptr as int, n),
        may(vm.mem@, root, va, false),
        !(ptr <= va < ptr + n),
    ensures
        forall|i: int|
            0 <= i < n ==> #[trigger] usercopy::phys(vm.mem@, root, ptr + i) != usercopy::phys(
                vm.mem@,
                root,
                va,
            ),
{
    let m = vm.mem@;
    let vp = va / 4096;
    assert(sv39::page_idx(vp));
    usercopy::lemma_access_private(vm, root, vp, false);
    uvm::lemma_user_page(m, root, vm.root as int, vm.start(), vp);
    assert forall|i: int| 0 <= i < n implies #[trigger] usercopy::phys(m, root, ptr + i)
        != usercopy::phys(m, root, va) by {
        let wp = (ptr + i) / 4096;
        assert(may(m, root, ptr + i, true));
        usercopy::lemma_access_private(vm, root, wp, true);
        uvm::lemma_user_page(m, root, vm.root as int, vm.start(), wp);
    }
}

/// A read with nothing typed goes to sleep. Otherwise it takes what was typed first,
/// as much as there is, as fits into a1 bytes and at most 1024, puts it into the
/// process's memory at a0, and gives the number of bytes; the rest is kept.
#[verifier::spinoff_prover]
#[verifier::rlimit(40)]
pub proof fn lemma_read(
    k1: Kernel,
    k2: Kernel,
    f1: TrapFrame,
    f2: TrapFrame,
    kstack: u64,
    act: Action,
)
    requires
        k1.in_user_trap(),
        k2.wf(),
        f1.a7 == 6,
        f1.a1 > 0,
        syscall::dispatched(k1, k2, f1, f2, kstack, act),
    ensures
        ({
            let typed = k1.console.pending();
            let root = k1.sched.running()->0.page_table as int;
            let n = if typed.len() <= f1.a1 && typed.len() <= 1024 {
                typed.len() as int
            } else if f1.a1 <= 1024 {
                f1.a1 as int
            } else {
                1024
            };
            &&& typed.len() == 0 ==> act is Block && act->Block_1 == (Pending::Read {
                ptr: f1.a0,
                len: f1.a1,
            }) && asleep_only(k1, k2) && gives_up(k1, act->Block_0) && k2.vm == k1.vm
                && k2.console.pending() == typed
            &&& typed.len() > 0 ==> act is Return && k2.sched == k1.sched
                && k2.console.pending() == typed.skip(n) && resumed(f1, f2, f2.a0)
            &&& typed.len() > 0 && writable(k1.vm.mem@, root, f1.a0 as int, n) ==> f2.a0 == n
                && delivered(k1, k2, f1.a0, typed.take(n))
            &&& typed.len() > 0 && !writable(k1.vm.mem@, root, f1.a0 as int, n) ==> f2.a0
                == u64::MAX && k2.vm == k1.vm
        }),
{
    let typed = k1.console.pending();
    let root = syscall::caller_root(k1);
    let bytes = syscall::read_bytes(typed, f1.a1);
    assert(proc::at(k1.sched.procs@, k1.sched.current->0 as int) is Some);
    if typed.len() > 0 {
        let n = bytes.len() as int;
        assert(bytes =~= typed.take(n));
        lemma_range(k1.vm.mem@, root, f1.a0, n, true);
        if writable(k1.vm.mem@, root, f1.a0 as int, n) {
            lemma_delivered(k1, k2, f1.a0, bytes);
        }
    }
}

/// A uname puts the version line into the process's memory at a0, cut off behind a1
/// bytes, and gives the number of bytes.
#[verifier::spinoff_prover]
#[verifier::rlimit(40)]
pub proof fn lemma_uname(
    k1: Kernel,
    k2: Kernel,
    f1: TrapFrame,
    f2: TrapFrame,
    kstack: u64,
    act: Action,
)
    requires
        k1.in_user_trap(),
        k2.wf(),
        f1.a7 == 7,
        f1.a1 > 0,
        syscall::dispatched(k1, k2, f1, f2, kstack, act),
    ensures
        ({
            let line = vstd::utf8::encode_utf8("osmium 0.1.0 riscv64\n"@);
            let root = k1.sched.running()->0.page_table as int;
            let n = if f1.a1 <= line.len() {
                f1.a1 as int
            } else {
                line.len() as int
            };
            &&& line.len() > 0
            &&& act is Return
            &&& resumed(f1, f2, f2.a0)
            &&& k2.sched == k1.sched
            &&& writable(k1.vm.mem@, root, f1.a0 as int, n) ==> f2.a0 == n && delivered(
                k1,
                k2,
                f1.a0,
                line.take(n),
            )
            &&& !writable(k1.vm.mem@, root, f1.a0 as int, n) ==> f2.a0 == u64::MAX && k2.vm
                == k1.vm
        }),
{
    let line = vstd::utf8::encode_utf8("osmium 0.1.0 riscv64\n"@);
    let root = syscall::caller_root(k1);
    let bytes = syscall::uname_bytes(f1.a1);
    reveal_strlit("osmium 0.1.0 riscv64\n");
    lemma_encoded_long("osmium 0.1.0 riscv64\n"@);
    let n = bytes.len() as int;
    assert(bytes =~= line.take(n));
    lemma_range(k1.vm.mem@, root, f1.a0, n, true);
    if writable(k1.vm.mem@, root, f1.a0 as int, n) {
        lemma_delivered(k1, k2, f1.a0, bytes);
    }
}

/// Text takes a byte at least for each of its characters.
proof fn lemma_encoded_long(text: Seq<char>)
    ensures
        vstd::utf8::encode_utf8(text).len() >= text.len(),
    decreases text.len(),
{
    if text.len() > 0 {
        lemma_encoded_long(text.drop_first());
    }
}

// --- Files -------------------------------------------------------------------

/// The running process has changed in its descriptor `fd` and in nothing else, and
/// no other process has changed.
pub open spec fn only_fd(k1: Kernel, k2: Kernel, fd: int) -> bool {
    let c = k1.sched.current->0 as int;
    let p = k1.sched.procs@[c]->0;
    let q = k2.sched.procs@[c]->0;
    &&& others_kept(k1, k2, c)
    &&& k2.sched.procs@[c] is Some
    &&& q == (Process { fds: q.fds, ..p })
    &&& forall|j: int| 0 <= j < 8 && j != fd ==> #[trigger] q.fds@[j] == p.fds@[j]
}

/// Opening a file by its name (at the process's address a0, a1 bytes of UTF-8, at
/// most 64) gives the lowest descriptor that was closed, which now stands at the
/// beginning of the first file of that name. With all eight open, or no file of that
/// name, it gives -1 and changes nothing.
#[verifier::spinoff_prover]
#[verifier::rlimit(40)]
pub proof fn lemma_open(
    k1: Kernel,
    k2: Kernel,
    f1: TrapFrame,
    f2: TrapFrame,
    kstack: u64,
    act: Action,
    name: Seq<char>,
)
    requires
        k1.in_user_trap(),
        k2.wf(),
        f1.a7 == 8,
        0 < f1.a1 <= 64,
        named(k1, f1.a0, f1.a1, name),
        syscall::dispatched(k1, k2, f1, f2, kstack, act),
    ensures
        ({
            let files = k1.fs.files();
            let fds = k1.sched.running()->0.fds@;
            let opened = k2.sched.running()->0.fds@[f2.a0 as int];
            &&& act is Return
            &&& resumed(f1, f2, f2.a0)
            &&& k2.vm == k1.vm
            &&& f2.a0 < 8 || f2.a0 == u64::MAX
            &&& f2.a0 == u64::MAX ==> k2.sched == k1.sched
            &&& f2.a0 == u64::MAX <==> (forall|fd: int|
                0 <= fd < 8 ==> (#[trigger] fds[fd]) is Some) || (forall|i: int|
                0 <= i < files.len() ==> (#[trigger] files[i]).0 != name)
            &&& f2.a0 < 8 ==> {
                &&& only_fd(k1, k2, f2.a0 as int)
                &&& fds[f2.a0 as int] is None
                &&& forall|fd: int| 0 <= fd < f2.a0 ==> (#[trigger] fds[fd]) is Some
                &&& opened is Some
                &&& opened->0.offset == 0
                &&& opened->0.file_idx < files.len()
                &&& files[opened->0.file_idx as int].0 == name
                &&& forall|i: int|
                    0 <= i < opened->0.file_idx ==> (#[trigger] files[i]).0 != name
            }
        }),
{
    let p = k1.sched.running()->0;
    let files = k1.fs.files();
    assert(proc::at(k1.sched.procs@, k1.sched.current->0 as int) is Some);
    lemma_text(k1, f1.a0, f1.a1, syscall::PATH_MAX, name);
    fs::lemma_find(files, name, 0);
    lemma_lowest(p.fds@, 0);
    let idx = fs::find(files, name, 0);
    let fd = proc::first_fd(p.fds@, 0);
    if idx < files.len() {
        assert(files[idx].0 == name);
    }
    if fd < 8 {
        assert(p.fds@[fd] is None);
    }
    if idx < files.len() && fd < 8 {
        fs::lemma_sizes(k1.fs);
        let q = k2.sched.running()->0;
        assert(q.fds@ == p.fds@.update(fd, Some(proc::FdEntry { file_idx: idx as usize, offset: 0 })));
    }
}

/// The first closed descriptor is the lowest one.
proof fn lemma_lowest(fds: Seq<Option<proc::FdEntry>>, i: int)
    requires
        0 <= i <= 8,
    ensures
        i <= proc::first_fd(fds, i) <= 8,
        proc::first_fd(fds, i) < 8 ==> fds[proc::first_fd(fds, i)] is None,
        forall|j: int| i <= j < proc::first_fd(fds, i) ==> (#[trigger] fds[j]) is Some,
    decreases 8 - i,
{
    if i < 8 && fds[i] is Some {
        lemma_lowest(fds, i + 1);
    }
}

/// Only the name of a file, handed over where the process may read it, opens one.
pub proof fn lemma_open_refused(
    k1: Kernel,
    k2: Kernel,
    f1: TrapFrame,
    f2: TrapFrame,
    kstack: u64,
    act: Action,
)
    requires
        k1.in_user_trap(),
        f1.a7 == 8,
        syscall::dispatched(k1, k2, f1, f2, kstack, act),
    ensures
        f2.a0 == u64::MAX ==> k2.sched == k1.sched && k2.vm == k1.vm,
        f2.a0 != u64::MAX ==> 0 < f1.a1 <= 64 && exists|i: int|
            0 <= i < k1.fs.files().len() && named(k1, f1.a0, f1.a1, (#[trigger] k1.fs.files()[i]).0),
{
    let files = k1.fs.files();
    lemma_lowest(k1.sched.running()->0.fds@, 0);
    if f2.a0 != u64::MAX {
        let name = syscall::user_text(k1, f1.a0, f1.a1, syscall::PATH_MAX)->0;
        lemma_text(k1, f1.a0, f1.a1, syscall::PATH_MAX, name);
        fs::lemma_find(files, name, 0);
        assert(named(k1, f1.a0, f1.a1, files[fs::find(files, name, 0)].0));
    }
}

/// Reading from an open descriptor gives what the file has from where the descriptor
/// stands: as much as is left, as fits into a2 bytes and at most 1024. It goes to the
/// process's memory at a1, and the descriptor stands behind it. The number of bytes
/// is the result, and 0 exactly at the end of the file.
#[verifier::spinoff_prover]
#[verifier::rlimit(40)]
pub proof fn lemma_fread(
    k1: Kernel,
    k2: Kernel,
    f1: TrapFrame,
    f2: TrapFrame,
    kstack: u64,
    act: Action,
)
    requires
        k1.in_user_trap(),
        k2.wf(),
        f1.a7 == 9,
        f1.a0 < 8,
        f1.a2 > 0,
        k1.sched.running()->0.fds@[f1.a0 as int] is Some,
        ({
            let e = k1.sched.running()->0.fds@[f1.a0 as int]->0;
            e.file_idx < k1.fs.files().len() && e.offset < k1.fs.files()[e.file_idx as int].1.len()
        }),
        syscall::dispatched(k1, k2, f1, f2, kstack, act),
    ensures
        ({
            let e1 = k1.sched.running()->0.fds@[f1.a0 as int]->0;
            let e2 = k2.sched.running()->0.fds@[f1.a0 as int];
            let data = k1.fs.files()[e1.file_idx as int].1;
            let root = k1.sched.running()->0.page_table as int;
            let left = data.len() - e1.offset;
            let n = if left <= f1.a2 && left <= 1024 {
                left
            } else if f1.a2 <= 1024 {
                f1.a2 as int
            } else {
                1024
            };
            &&& act is Return
            &&& resumed(f1, f2, f2.a0)
            &&& n > 0
            &&& k2.fs.files() == k1.fs.files()
            &&& writable(k1.vm.mem@, root, f1.a1 as int, n) ==> {
                &&& f2.a0 == n
                &&& delivered(k1, k2, f1.a1, data.subrange(e1.offset as int, e1.offset + n))
                &&& only_fd(k1, k2, f1.a0 as int)
                &&& e2 is Some
                &&& e2->0.file_idx == e1.file_idx
                &&& e2->0.offset == e1.offset + n
            }
            &&& !writable(k1.vm.mem@, root, f1.a1 as int, n) ==> f2.a0 == u64::MAX && k2.vm
                == k1.vm && k2.sched == k1.sched
        }),
{
    let p = k1.sched.running()->0;
    let e1 = p.fds@[f1.a0 as int]->0;
    let data = k1.fs.files()[e1.file_idx as int].1;
    let root = syscall::caller_root(k1);
    let bytes = syscall::fread_bytes(k1.fs.files(), e1, f1.a2);
    let n = bytes.len() as int;
    assert(proc::at(k1.sched.procs@, k1.sched.current->0 as int) is Some);
    fs::lemma_sizes(k1.fs);
    lemma_range(k1.vm.mem@, root, f1.a1, n, true);
    assert(bytes =~= data.subrange(e1.offset as int, e1.offset + n));
    if writable(k1.vm.mem@, root, f1.a1 as int, n) {
        lemma_delivered(k1, k2, f1.a1, bytes);
        assert(syscall::copy_result(k1.vm, root, f1.a1, n) == n);
        let q = k2.sched.running()->0;
        assert(q.fds@ == p.fds@.update(
            f1.a0 as int,
            Some(proc::FdEntry { file_idx: e1.file_idx, offset: (e1.offset + n) as usize }),
        ));
    }
}

/// At the end of a file a read gives 0, and a descriptor that is not open gives -1.
/// Neither the memory nor where the descriptors stand changes.
#[verifier::spinoff_prover]
#[verifier::rlimit(40)]
pub proof fn lemma_fread_end(
    k1: Kernel,
    k2: Kernel,
    f1: TrapFrame,
    f2: TrapFrame,
    kstack: u64,
    act: Action,
)
    requires
        k1.in_user_trap(),
        k2.wf(),
        f1.a7 == 9,
        (f1.a1 % 4096 == 0 && f1.a1 < 0x40_0000_0000) || may(
            k1.vm.mem@,
            k1.sched.running()->0.page_table as int,
            f1.a1 as int,
            true,
        ),
        syscall::dispatched(k1, k2, f1, f2, kstack, act),
        f1.a0 >= 8 || k1.sched.running()->0.fds@[f1.a0 as int] is None || ({
            let e = k1.sched.running()->0.fds@[f1.a0 as int]->0;
            e.file_idx < k1.fs.files().len() && e.offset >= k1.fs.files()[e.file_idx as int].1.len()
        }),
    ensures
        act is Return,
        resumed(f1, f2, f2.a0),
        k2.fs.files() == k1.fs.files(),
        f1.a0 >= 8 || k1.sched.running()->0.fds@[f1.a0 as int] is None ==> f2.a0 == u64::MAX
            && k2.sched == k1.sched && k2.vm == k1.vm,
        f1.a0 < 8 && k1.sched.running()->0.fds@[f1.a0 as int] is Some ==> f2.a0 == 0
            && k2.sched.running()->0.fds@ == k1.sched.running()->0.fds@ && forall|b: int| #[trigger]
            physmem::byte_at(k2.vm.mem@, b) == physmem::byte_at(k1.vm.mem@, b),
{
    let p = k1.sched.running()->0;
    let m = k1.vm.mem@;
    let root = syscall::caller_root(k1);
    assert(proc::at(k1.sched.procs@, k1.sched.current->0 as int) is Some);
    if f1.a0 < 8 && p.fds@[f1.a0 as int] is Some && f1.a2 > 0 {
        let e = p.fds@[f1.a0 as int]->0;
        let bytes = syscall::fread_bytes(k1.fs.files(), e, f1.a2);
        assert(bytes =~= Seq::<u8>::empty());
        assert forall|vp: int| #[trigger] usercopy::in_range(f1.a1 as int, 0, vp) implies usercopy::user_access(
            m,
            root,
            vp,
            true,
        ) by {
            assert(vp == f1.a1 as int / 4096);
        }
        assert(usercopy::user_range(m, root, f1.a1, 0, true));
        assert(k2.sched.running()->0.fds@ =~= p.fds@);
    }
}

/// Closing a descriptor closes it and no other, and gives 0; closing one that is not
/// open gives -1.
pub proof fn lemma_close(
    k1: Kernel,
    k2: Kernel,
    f1: TrapFrame,
    f2: TrapFrame,
    kstack: u64,
    act: Action,
)
    requires
        k1.in_user_trap(),
        f1.a7 == 10,
        syscall::dispatched(k1, k2, f1, f2, kstack, act),
    ensures
        act is Return,
        k2.vm == k1.vm,
        f1.a0 < 8 && k1.sched.running()->0.fds@[f1.a0 as int] is Some ==> {
            &&& resumed(f1, f2, 0)
            &&& only_fd(k1, k2, f1.a0 as int)
            &&& k2.sched.running()->0.fds@[f1.a0 as int] is None
        },
        f1.a0 >= 8 || k1.sched.running()->0.fds@[f1.a0 as int] is None ==> resumed(
            f1,
            f2,
            u64::MAX,
        ) && k2.sched == k1.sched,
{
    let p = k1.sched.running()->0;
    assert(proc::at(k1.sched.procs@, k1.sched.current->0 as int) is Some);
    if f1.a0 < 8 && p.fds@[f1.a0 as int] is Some {
        assert(k2.sched.running()->0.fds@ == p.fds@.update(f1.a0 as int, None));
    }
}

// --- Traps that are no calls -------------------------------------------------

/// A breakpoint is reported and stepped over: the thread goes on behind the instruction,
/// which is 4 bytes long if the low two bits of its first byte are set and 2 otherwise, with
/// every other register as it was.
pub proof fn lemma_breakpoint(
    k1: Kernel,
    k2: Kernel,
    f1: TrapFrame,
    f2: TrapFrame,
    stval: u64,
    time: u64,
    kstack: u64,
    act: TrapAction,
)
    requires
        k1.wf(),
        f1.sepc < 0x40_0000_0000,
        trap::trapped(k1, k2, f1, f2, 3, stval, time, kstack, act),
    ensures
        ({
            let root = match k1.sched.running() {
                Some(p) => p.page_table as int,
                None => k1.vm.root as int,
            };
            let len: int = if byte(k1.vm.mem@, root, f1.sepc as int) % 4 == 3 {
                4
            } else {
                2
            };
            &&& act == (TrapAction::Breakpoint { at: f1.sepc, user: f1.sstatus & 0x100 == 0 })
            &&& f2 == (TrapFrame { sepc: (f1.sepc + len) as u64, ..f1 })
            &&& untouched(k1, k2)
        }),
{
    lemma_fault_cause(3);
}

/// An interrupt changes no register of whoever is interrupted. One from a device asks for
/// the claim register to be read and changes nothing else; one that nothing enables is
/// reported.
pub proof fn lemma_interrupt(
    k1: Kernel,
    k2: Kernel,
    f1: TrapFrame,
    f2: TrapFrame,
    cause: u64,
    stval: u64,
    time: u64,
    kstack: u64,
    act: TrapAction,
)
    requires
        cause & 0x8000_0000_0000_0000 != 0,
        trap::trapped(k1, k2, f1, f2, cause, stval, time, kstack, act),
    ensures
        f2 == f1,
        cause & !0x8000_0000_0000_0000u64 == 9 ==> act is Claim && k2 == k1,
        act is Tick <==> cause & !0x8000_0000_0000_0000u64 == 5,
        act is Tick || act is Claim || act == (TrapAction::BadInterrupt { cause }),
        !(act is Tick) ==> k2 == k1,
{
}

/// An exception of the kernel's own, other than a breakpoint, is reported as what it is, and
/// nothing is touched.
pub proof fn lemma_kernel_fault(
    k1: Kernel,
    k2: Kernel,
    f1: TrapFrame,
    f2: TrapFrame,
    cause: u64,
    stval: u64,
    time: u64,
    kstack: u64,
    act: TrapAction,
)
    requires
        f1.sstatus & 0x100 != 0,
        cause < 64,
        cause != 3,
        cause != 8,
        trap::trapped(k1, k2, f1, f2, cause, stval, time, kstack, act),
    ensures
        act == (TrapAction::BadException { code: cause, cause, sepc: f1.sepc, stval }),
        k2 == k1,
        f2 == f1,
{
    lemma_fault_cause(cause);
}

/// A fork succeeds unless there are fewer free pages than the copy takes, and changes nothing
/// then.
pub proof fn lemma_fork_served(
    k1: Kernel,
    k2: Kernel,
    f1: TrapFrame,
    f2: TrapFrame,
    kstack: u64,
    act: Action,
)
    requires
        k1.in_user_trap(),
        f1.a7 == 12,
        syscall::dispatched(k1, k2, f1, f2, kstack, act),
    ensures
        act is Return || act is OutOfPages,
        act is OutOfPages <==> k1.vm.kmem.pages().len() < uvm::clone_pages(
            k1.vm.mem@,
            k1.sched.running()->0.page_table as int,
        ),
        act is OutOfPages ==> k2.sched == k1.sched && k2.vm == k1.vm,
        act is Return ==> k1.vm.kmem.pages().len() - k2.vm.kmem.pages().len() == uvm::clone_pages(
            k1.vm.mem@,
            k1.sched.running()->0.page_table as int,
        ),
{
}

// --- What no call touches ----------------------------------------------------

/// Whatever a process calls for, the kernel's own table and image, its heap, its programs, its
/// files and the time stay what they are; only a read takes bytes from the console; only a
/// fork, a read, a uname, an fread and an exec touch any memory; and no call of one process
/// changes the registers, the memory map, the heap or the files of another.
#[verifier::spinoff_prover]
#[verifier::rlimit(40)]
pub proof fn lemma_call_frame(
    k1: Kernel,
    k2: Kernel,
    f1: TrapFrame,
    f2: TrapFrame,
    kstack: u64,
    act: Action,
    i: int,
)
    requires
        k1.in_user_trap(),
        syscall::dispatched(k1, k2, f1, f2, kstack, act),
        0 <= i < k1.sched.procs@.len(),
        k1.sched.procs@[i] is Some,
        k1.sched.current != Some(i as usize),
    ensures
        k2.vm.root == k1.vm.root,
        k2.vm.image == k1.vm.image,
        k2.heap == k1.heap,
        k2.programs == k1.programs,
        k2.fs.files() == k1.fs.files(),
        k2.timer.ticks() == k1.timer.ticks(),
        f1.a7 != 6 ==> k2.console.pending() == k1.console.pending(),
        f1.a7 != 6 && f1.a7 != 7 && f1.a7 != 9 && f1.a7 != 12 && f1.a7 != 14 ==> k2.vm == k1.vm,
        k2.sched.current == k1.sched.current,
        k2.sched.next_slot == k1.sched.next_slot,
        f1.a7 != 12 ==> k2.sched.next_pid == k1.sched.next_pid,
        i < k2.sched.procs@.len(),
        k2.sched.procs@[i] is Some,
        k2.sched.procs@[i]->0 == (Process {
            state: k2.sched.procs@[i]->0.state,
            ..k1.sched.procs@[i]->0
        }),
        f1.a7 != 2 ==> k2.sched.procs@[i] == k1.sched.procs@[i],
{
    let c = k1.sched.current->0 as int;
    assert(proc::at(k1.sched.procs@, c) is Some);
    assert(i < k1.sched.procs.len());
    proc::lemma_first_free(k1.sched.procs@, 0);
}

/// A call that comes back leaves the processor as it was; one that gives up the CPU does so
/// holding one level of interrupt-disable, with interrupts off.
#[verifier::spinoff_prover]
#[verifier::rlimit(40)]
pub proof fn lemma_call_hart(
    k1: Kernel,
    k2: Kernel,
    f1: TrapFrame,
    f2: TrapFrame,
    kstack: u64,
    act: Action,
)
    requires
        k1.in_user_trap(),
        syscall::dispatched(k1, k2, f1, f2, kstack, act),
    ensures
        k2.hart.stvec == k1.hart.stvec,
        k2.hart.sie == k1.hart.sie,
        !(act is Enter) ==> k2.hart.satp == k1.hart.satp && k2.hart.sepc == k1.hart.sepc
            && k2.hart.sscratch == k1.hart.sscratch,
        act is Return || act is Print || act is Unknown || act is OutOfPages ==> k2.hart.sstatus
            == k1.hart.sstatus && k2.hart.noff == 0,
        act is Block || act is Yield || act is Exit ==> k2.hart.noff == 1 && k2.hart.sstatus & 2
            == 0,
{
    riscv::lemma_sie(k1.hart.sstatus);
    spinlock::lemma_push_pop(k1.hart);
}

} // verus!
