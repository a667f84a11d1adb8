//! What a thread can rely on of the scheduler: that it gets its turn, that it goes
//! on as it was, and that the dead are cleared away and nobody else.
use vstd::prelude::*;

use crate::abi;
use crate::boot;
use crate::boot::Start;
use crate::kalloc;
use crate::kernel;
use crate::kernel::{Kernel, Program};
use crate::proc;
use crate::proc::{Entry, First, Handoff, Process, Scheduler, State};
use crate::riscv;
use crate::riscv::Hart;
use crate::spinlock;
use crate::trap;
use crate::trap::{TrapAction, TrapFrame};
use crate::uproc;
use crate::uproc::Pick;
use crate::user;
use crate::vm::Vm;

verus! {

/// One round clears away exactly the dead, and what is left of them is exactly their
/// stacks. It runs a thread that was runnable, on the thread's own table with
/// interrupts off, and leaves everybody else as they were; only if nobody is runnable
/// does it run none, and then interrupts are on.
#[verifier::spinoff_prover]
#[verifier::rlimit(40)]
pub proof fn lemma_round(
    s1: Scheduler,
    s2: Scheduler,
    h1: Hart,
    h2: Hart,
    vm1: Vm,
    vm2: Vm,
    next: Pick,
    stacks: Seq<u64>,
    i: int,
)
    requires
        s1.wf(),
        s1.current is None,
        h1.noff == 0,
        uproc::scheduled(s1, s2, h1, h2, vm1, vm2, next, stacks),
        0 <= i < s1.procs@.len(),
    ensures
        s2.procs@.len() == s1.procs@.len(),
        s2.next_pid == s1.next_pid,
        s1.procs@[i] is Some && s1.procs@[i]->0.state is Zombie ==> s2.procs@[i] is None
            && stacks.contains(s1.procs@[i]->0.kstack),
        s1.procs@[i] is None ==> s2.procs@[i] is None,
        forall|stack: u64| #[trigger]
            stacks.contains(stack) ==> exists|j: int|
                0 <= j < s1.procs@.len() && (#[trigger] s1.procs@[j]) is Some && s1.procs@[j]->0.state is Zombie
                    && s1.procs@[j]->0.kstack == stack,
        s1.procs@[i] is Some && s1.procs@[i]->0.state is Runnable ==> next is Run,
        match next {
            Pick::Run { slot, satp } => {
                &&& slot < s1.procs@.len()
                &&& s2.current == Some(slot)
                &&& s1.procs@[slot as int] is Some
                &&& s1.procs@[slot as int]->0.state is Runnable
                &&& s2.procs@[slot as int] == Some(
                    Process { state: State::Running, ..s1.procs@[slot as int]->0 },
                )
                &&& s1.procs@[i] is Some && !(s1.procs@[i]->0.state is Zombie) && i != slot
                    ==> s2.procs@[i] == s1.procs@[i]
                &&& satp == 0x8000_0000_0000_0000 | (s1.procs@[slot as int]->0.page_table >> 12u64)
                &&& h2.satp == satp
                &&& h2.noff == 1
                &&& h2.sstatus & 2 == 0
            },
            Pick::Idle => {
                &&& s2.current is None
                &&& s1.procs@[i] is Some && !(s1.procs@[i]->0.state is Zombie) ==> s2.procs@[i]
                    == s1.procs@[i]
                &&& h2.noff == 0
                &&& h2.sstatus & 2 != 0
                &&& h2.satp == h1.satp
            },
        },
{
    let procs = s1.procs@;
    let n = procs.len() as int;
    let left = uproc::reaped(procs, n);
    let idx = uproc::pick(left, s1.next_slot as int, 0);
    uproc::lemma_pick(left, s1.next_slot as int, 0);
    lemma_stacks(procs, n);
    riscv::lemma_sie(h1.sstatus);
    let woke = Hart { sstatus: riscv::with_sie(h1.sstatus), ..h1 };
    riscv::lemma_sie(woke.sstatus);
    if idx < 0 {
        spinlock::lemma_push_pop(woke);
    }
    assert(idx <= s1.procs.len());
    if procs[i] is Some && procs[i]->0.state is Runnable {
        assert(proc::in_state(left, i, State::Runnable));
        uproc::lemma_round_robin(left, s1.next_slot as int, i);
    }
    if idx >= 0 {
        assert(proc::in_state(left, idx, State::Runnable));
    }
}

/// The stacks of the dead among the first `n` slots are those and no others.
proof fn lemma_stacks(procs: Seq<Option<Process>>, n: int)
    requires
        0 <= n <= procs.len(),
    ensures
        forall|i: int|
            0 <= i < n && (#[trigger] procs[i]) is Some && procs[i]->0.state is Zombie
                ==> uproc::dead_stacks(procs, n).contains(procs[i]->0.kstack),
        forall|stack: u64| #[trigger]
            uproc::dead_stacks(procs, n).contains(stack) ==> exists|j: int|
                0 <= j < n && (#[trigger] procs[j]) is Some && procs[j]->0.state is Zombie
                    && procs[j]->0.kstack == stack,
    decreases n,
{
    if n > 0 {
        lemma_stacks(procs, n - 1);
        let before = uproc::dead_stacks(procs, n - 1);
        let after = uproc::dead_stacks(procs, n);
        if proc::in_state(procs, n - 1, State::Zombie) {
            let k = procs[n - 1]->0.kstack;
            assert(after == before.push(k));
            assert(after[before.len() as int] == k);
            assert forall|stack: u64| before.contains(stack) implies #[trigger] after.contains(
                stack,
            ) by {
                assert(after[before.index_of(stack)] == stack);
            }
            assert forall|stack: u64| #[trigger] after.contains(stack) implies before.contains(stack)
                || stack == k by {
                let at = after.index_of(stack);
                if at < before.len() {
                    assert(before[at] == stack);
                }
            }
            assert(procs[n - 1] is Some);
        }
    }
}

/// Every runnable thread gets its turn: with a thread runnable in slot `j`, a round
/// runs that one, or one that comes before it, and then fewer slots are left before
/// its turn than there were; so it runs within as many rounds as there are slots.
pub proof fn lemma_turn_comes(
    s1: Scheduler,
    s2: Scheduler,
    h1: Hart,
    h2: Hart,
    vm1: Vm,
    vm2: Vm,
    next: Pick,
    stacks: Seq<u64>,
    j: int,
)
    requires
        s1.wf(),
        uproc::scheduled(s1, s2, h1, h2, vm1, vm2, next, stacks),
        0 <= j < s1.procs@.len(),
        s1.procs@[j] is Some,
        s1.procs@[j]->0.state is Runnable,
    ensures
        ({
            let n = s1.procs@.len() as int;
            &&& next is Run
            &&& 0 <= (j - s1.next_slot) % n < n
            &&& next->slot != j ==> (j - s2.next_slot) % n < (j - s1.next_slot) % n
        }),
{
    let n = s1.procs@.len() as int;
    let left = uproc::reaped(s1.procs@, n);
    assert(proc::in_state(left, j, State::Runnable));
    uproc::lemma_round_robin(left, s1.next_slot as int, j);
    vstd::arithmetic::div_mod::lemma_mod_bound(j - s1.next_slot, n);
    assert(uproc::pick(left, s1.next_slot as int, 0) < s1.procs.len());
}

/// A timer interrupt counts one tick, asks for the next one a hundredth of a second
/// later, makes everybody runnable who sleeps until a tick, and takes the CPU from
/// the thread that runs, which stays runnable.
#[verifier::spinoff_prover]
#[verifier::rlimit(40)]
pub proof fn lemma_tick(
    k1: Kernel,
    k2: Kernel,
    f1: TrapFrame,
    f2: TrapFrame,
    stval: u64,
    time: u64,
    kstack: u64,
    act: TrapAction,
    i: int,
)
    requires
        k1.wf(),
        k1.hart.noff == 0,
        time + 100_000 <= u64::MAX,
        trap::trapped(k1, k2, f1, f2, 0x8000_0000_0000_0005, stval, time, kstack, act),
        0 <= i < k1.sched.procs@.len(),
    ensures
        f2 == f1,
        k1.timer.ticks() < u64::MAX ==> k2.timer.ticks() == k1.timer.ticks() + 1,
        act matches TrapAction::Tick { deadline, preempted } && deadline == time + 100_000 && (
        preempted is Some <==> k1.sched.running() is Some
            && k1.sched.running()->0.state is Running) && (preempted is Some
            ==> preempted->0.slot == k1.sched.current->0 && preempted->0.intena == (
        k1.hart.sstatus & 2 != 0)),
        k2.sched.current == k1.sched.current,
        k2.sched.next_slot == k1.sched.next_slot,
        k2.sched.procs@.len() == k1.sched.procs@.len(),
        k1.sched.procs@[i] is None ==> k2.sched.procs@[i] is None,
        k1.sched.procs@[i] is Some ==> k2.sched.procs@[i] == Some(
            Process {
                state: match k1.sched.procs@[i]->0.state {
                    State::Running => if k1.sched.current == Some(i as usize) {
                        State::Runnable
                    } else {
                        State::Running
                    },
                    State::Sleeping(chan) => if chan == crate::timer::TICK_CHAN {
                        State::Runnable
                    } else {
                        State::Sleeping(chan)
                    },
                    state => state,
                },
                ..k1.sched.procs@[i]->0
            },
        ),
        k2.vm == k1.vm,
        k2.console.pending() == k1.console.pending(),
{
    abi::lemma_timer_cause();
    assert(proc::at(k1.sched.procs@, i) == k1.sched.procs@[i]);
    assert(i < k1.sched.procs.len());
    if k1.sched.current is Some {
        assert(proc::at(k1.sched.procs@, k1.sched.current->0 as int) is Some);
    }
}

/// A thread that gave up the CPU goes on with interrupts enabled exactly if they were
/// when it did, whatever the others did with them in between, and in no critical
/// section.
pub proof fn lemma_goes_on(hart: Hart, h: Handoff)
    requires
        hart.noff == 1,
        hart.sstatus & 2 == 0,
    ensures
        (proc::gone_on(hart, h).sstatus & 2 != 0) == h.intena,
        proc::gone_on(hart, h).noff == 0,
        proc::gone_on(hart, h).satp == hart.satp,
        proc::gone_on(hart, h).sepc == hart.sepc,
        proc::gone_on(hart, h).sscratch == hart.sscratch,
        proc::gone_on(hart, h).stvec == hart.stvec,
        proc::gone_on(hart, h).sie == hart.sie,
{
    riscv::lemma_sie(hart.sstatus);
}

/// The status word with which a process is entered takes `sret` to user mode (bit 8 is
/// clear) with interrupts on there (bit 5) and off until then (bit 1); no other bit is
/// touched.
pub proof fn lemma_user_status(s: u64)
    ensures
        proc::user_sstatus(s) & 0x100 == 0,
        proc::user_sstatus(s) & 0x20 != 0,
        proc::user_sstatus(s) & 2 == 0,
        proc::user_sstatus(s) & !0x122u64 == s & !0x122u64,
{
    let t: u64 = ((s & !2u64) & !0x100u64) | 0x20u64;
    assert(t & 0x100 == 0 && t & 0x20 != 0 && t & 2 == 0 && t & !0x122u64 == s & !0x122u64)
        by (bit_vector)
        requires
            t == ((s & !2u64) & !0x100u64) | 0x20u64,
    ;
}

/// A stack starts at its upper end, at a multiple of 16.
pub proof fn lemma_stack_start(kstack: u64)
    requires
        kstack + 0x4000 <= u64::MAX,
    ensures
        proc::stack_top(kstack) % 16 == 0,
        kstack + 0x4000 - 16 < proc::stack_top(kstack) <= kstack + 0x4000,
{
    let end: u64 = (kstack + 0x4000) as u64;
    assert((end & !0xfu64) % 16 == 0 && end & !0xfu64 <= end && end - (end & !0xfu64) < 16)
        by (bit_vector);
}

/// The new thread's slot was empty, nobody has its pid, and everybody else is as
/// before.
pub open spec fn joined(s1: Scheduler, s2: Scheduler, i: int) -> bool {
    &&& 0 <= i < s2.procs@.len()
    &&& i < s1.procs@.len() ==> s1.procs@[i] is None
    &&& s2.procs@[i] is Some
    &&& s2.procs@[i]->0.pid == s1.next_pid
    &&& s2.next_pid == s1.next_pid + 1
    &&& forall|j: int|
        0 <= j < s1.procs@.len() ==> (#[trigger] s1.procs@[j] is Some ==> s1.procs@[j]->0.pid
            < s1.next_pid)
    &&& s2.current == s1.current
    &&& s1.procs@.len() <= s2.procs@.len() <= s1.procs@.len() + 1
    &&& forall|j: int|
        0 <= j < s2.procs@.len() && j != i ==> j < s1.procs@.len() && #[trigger] s2.procs@[j]
            == s1.procs@[j]
}

/// A new thread joins the others.
proof fn lemma_joined(s1: Scheduler, s2: Scheduler)
    requires
        s1.wf(),
        s1.next_pid < u64::MAX,
        proc::grew(s1, s2),
        proc::at(s2.procs@, proc::new_slot(s1.procs@))->0.pid == s1.next_pid,
    ensures
        joined(s1, s2, proc::new_slot(s1.procs@)),
{
    proc::lemma_first_free(s1.procs@, 0);
    assert forall|j: int| 0 <= j < s1.procs@.len() && #[trigger] s1.procs@[j] is Some implies s1.procs@[j]->0.pid
        < s1.next_pid by {
        assert(proc::at(s1.procs@, j) is Some);
    }
}

/// A new kernel thread is runnable. The first switch to it goes to the trampoline with
/// an empty stack of its own, and from there it calls its function with interrupts on.
/// It has no open file.
#[verifier::spinoff_prover]
#[verifier::rlimit(40)]
pub proof fn lemma_thread_starts(
    s1: Scheduler,
    s2: Scheduler,
    pid: u64,
    name: &'static str,
    f: u64,
    kstack: u64,
    root: u64,
    h1: Hart,
    h2: Hart,
    first: First,
)
    requires
        s1.wf(),
        s1.next_pid < u64::MAX,
        pid == s1.next_pid,
        kstack + 0x4000 <= u64::MAX,
        proc::grew(s1, s2),
        proc::fresh_thread(
            proc::at(s2.procs@, proc::new_slot(s1.procs@))->0,
            pid,
            name,
            Entry::Kernel(f),
            kstack,
            root,
            s1.trampoline,
        ),
        proc::entered(
            proc::at(s2.procs@, proc::new_slot(s1.procs@))->0,
            h1,
            h2,
            first,
        ),
    ensures
        exists|i: int|
            #![trigger s2.procs@[i]]
            joined(s1, s2, i) && ({
                let p = s2.procs@[i]->0;
                &&& p.name == name
                &&& p.state is Runnable
                &&& p.context.ra == s1.trampoline
                &&& p.context.sp % 16 == 0
                &&& kstack + 0x4000 - 16 < p.context.sp <= kstack + 0x4000
                &&& p.kstack == kstack
                &&& p.page_table == root
                &&& p.user_table is None
                &&& forall|fd: int| 0 <= fd < 8 ==> (#[trigger] p.fds@[fd]) is None
            }),
        first == First::Call(f),
        h2.sstatus & 2 != 0,
        h2.noff == 0,
        h2.satp == h1.satp,
{
    lemma_joined(s1, s2);
    lemma_stack_start(kstack);
    riscv::lemma_sie(h1.sstatus);
    let i = proc::new_slot(s1.procs@);
    assert(s2.procs@[i] is Some);
}

/// A program that is started runs in a process of its own, with the next pid. It has an
/// empty heap and no open file. When its turn comes, it is entered in user mode at the
/// start of its code, which is the program's, with an empty stack of zeroes.
#[verifier::spinoff_prover]
#[verifier::rlimit(40)]
pub proof fn lemma_program_starts(
    k1: Kernel,
    k2: Kernel,
    name: &'static str,
    prog: Program,
    kstack: u64,
    pid: Option<u64>,
    h1: Hart,
    h2: Hart,
    first: First,
    i: int,
)
    requires
        k1.wf(),
        k2.wf(),
        k1.sched.next_pid < u64::MAX,
        kstack + 0x4000 <= u64::MAX,
        kernel::program_ok(prog, k1.vm),
        user::started(k1, k2, name, prog, kstack, pid),
        pid is Some,
        0 <= i < k2.sched.procs@.len(),
        k2.sched.procs@[i] is Some,
        k2.sched.procs@[i]->0.pid == pid->0,
        proc::entered(k2.sched.procs@[i]->0, h1, h2, first),
    ensures
        joined(k1.sched, k2.sched, i),
        ({
            let p = k2.sched.procs@[i]->0;
            &&& p.name == name
            &&& p.state is Runnable
            &&& p.heap_base == 0x4200_0000
            &&& p.heap_brk == 0x4200_0000
            &&& forall|fd: int| 0 <= fd < 8 ==> (#[trigger] p.fds@[fd]) is None
            &&& p.kstack == kstack
            &&& p.kstack_top % 16 == 0
            &&& kstack + 0x4000 - 16 < p.kstack_top <= kstack + 0x4000
            &&& abi::image_at(k1.vm.mem@, k2.vm.mem@, p.page_table as int, prog)
            &&& k1.vm.kmem.pages().contains(p.page_table as int)
            &&& first is User
            &&& first->User_0.sp == 0x4100_0000
            &&& h2.sepc == 0x4000_0000
            &&& h2.sscratch == p.kstack_top
            &&& h2.sstatus & 0x100 == 0
            &&& h2.sstatus & 0x20 != 0
            &&& h2.sstatus & 2 == 0
        }),
{
    let s1 = k1.sched;
    let s2 = k2.sched;
    lemma_joined(s1, s2);
    let n = proc::new_slot(s1.procs@);
    if i != n {
        assert(s2.procs@[i] == s1.procs@[i]);
    }
    let p = s2.procs@[i]->0;
    lemma_stack_start(kstack);
    kalloc::lemma_pages(k1.vm.kmem, k1.vm.mem@);
    assert(k1.vm.kmem.pages().contains(k1.vm.kmem.pages()[0]));
    assert(proc::at(s2.procs@, i) is Some);
    assert(uproc::table_at(s2.procs@, i) == p.page_table);
    uproc::lemma_table(k2.vm, s2.procs@, i);
    abi::lemma_loaded_runs(k1.vm.mem@, k2.vm, prog, p.page_table as int);
    lemma_user_status(riscv::with_sie(h1.sstatus));
}

/// Starting a program fails only for want of pages, and changes nothing then.
pub proof fn lemma_program_refused(
    k1: Kernel,
    k2: Kernel,
    name: &'static str,
    prog: Program,
    kstack: u64,
    pid: Option<u64>,
)
    requires
        0 < prog.len <= 0xff_f000,
        user::started(k1, k2, name, prog, kstack, pid),
    ensures
        k1.vm.kmem.pages().len() >= (prog.len + 4095) / 4096 + 11 ==> pid is Some,
        pid is None ==> k2.sched == k1.sched && k2.vm == k1.vm,
{
}

/// Every thread of the workload is ready: it has its number as its pid, its own name and the
/// stack that was meant for it. A kernel thread will call its function; a user process will
/// run the first program of the name it was started with.
#[verifier::spinoff_prover]
#[verifier::rlimit(40)]
pub proof fn lemma_workload_ready(
    k: Kernel,
    starts: Seq<Start>,
    stacks: Seq<u64>,
    n: int,
    i: int,
    h1: Hart,
    h2: Hart,
    first: First,
)
    requires
        k.wf(),
        boot::all_ready(k, starts, stacks, n),
        0 <= i < n,
        n < u64::MAX,
        boot::known(k.programs@, starts[i]),
        proc::entered(k.sched.procs@[i]->0, h1, h2, first),
    ensures
        ({
            let p = k.sched.procs@[i]->0;
            &&& p.pid == i + 1
            &&& p.state is Runnable
            &&& p.kstack == stacks[i]
            &&& p.context.ra == k.sched.trampoline
            &&& match starts[i] {
                Start::Thread { name, entry } => {
                    &&& p.name == name
                    &&& first == First::Call(entry)
                    &&& p.page_table == k.vm.root
                },
                Start::User { name, program } => {
                    &&& p.name == name
                    &&& first is User
                    &&& first->User_0.sp == 0x4100_0000
                    &&& h2.sepc == 0x4000_0000
                    &&& h2.sstatus & 0x100 == 0
                    &&& exists|j: int|
                        #![trigger k.programs@[j]]
                        0 <= j < k.programs@.len() && k.programs@[j].name@ == program@ && (forall|l: int|
                            0 <= l < j ==> (#[trigger] k.programs@[l]).name@ != program@)
                            && abi::image_at(
                            k.vm.mem@,
                            k.vm.mem@,
                            p.page_table as int,
                            k.programs@[j],
                        )
                },
            }
        }),
{
    let p = k.sched.procs@[i]->0;
    assert(k.sched.procs@[i] is Some);
    if let Start::User { name, program } = starts[i] {
        abi::lemma_program_found(k.programs@, program@, 0);
        let j = kernel::find_program(k.programs@, program@, 0);
        assert(kernel::program_ok(k.programs@[j], k.vm));
        assert(proc::at(k.sched.procs@, i) is Some);
        assert(uproc::table_at(k.sched.procs@, i) == p.page_table);
        uproc::lemma_table(k.vm, k.sched.procs@, i);
        abi::lemma_loaded_runs(k.vm.mem@, k.vm, k.programs@[j], p.page_table as int);
        lemma_user_status(riscv::with_sie(h1.sstatus));
    }
}

} // verus!
