//! Kernel threads, user processes and the round-robin scheduler.
//!
//! Concurrency model: the kernel schedules on a single hart, and every access
//! to the scheduler state happens with supervisor interrupts disabled. There
//! is exactly one hart, and it cannot be re-entered by an interrupt while it
//! holds the state.
//!
//! Each thread runs on its own 16 KiB kernel stack. The scheduler itself runs
//! on the boot stack; a context switch moves the hart between the scheduler
//! context and thread contexts by swapping the callee-saved register set. A
//! function that gives up the CPU returns a [`Handoff`], which says whose
//! context to save before the scheduler's is restored.
use vstd::prelude::*;

use crate::riscv;
use crate::riscv::Hart;
use crate::spinlock;
use crate::trap::TrapFrame;
use crate::uvm::USER_HEAP_MAX;

pub use crate::uproc::{exec, fork, scheduler, scheduler_return, service_page_fault, spawn_user};

verus! {

/// Bytes of a kernel stack.
pub const KSTACK_SIZE: u64 = 0x4000;

/// Open files per process.
pub const MAX_FDS: usize = 8;

/// Wait channel woken whenever any process exits, so `join` can recheck.
pub const EXIT_CHAN: u64 = 0xdead_0001;

/// One open file: which ramfs file, and the read cursor into it.
#[derive(Clone, Copy)]
pub struct FdEntry {
    pub file_idx: usize,
    pub offset: usize,
}

/// Callee-saved register set.
#[derive(Clone, Copy)]
pub struct Context {
    pub ra: u64,
    pub sp: u64,
    pub s: [u64; 12],
}

impl Context {
    /// All registers zero.
    pub fn zeroed() -> (c: Context)
        ensures
            c.ra == 0,
            c.sp == 0,
            forall|i: int| 0 <= i < 12 ==> #[trigger] c.s@[i] == 0,
    {
        Context { ra: 0, sp: 0, s: [0; 12] }
    }
}

/// What a thread is doing.
#[derive(Clone, Copy, PartialEq, Eq, Debug, Structural)]
pub enum State {
    Runnable,
    Running,
    /// Waiting for a `wakeup` on this channel value.
    Sleeping(u64),
    Zombie,
}

/// What a thread does when it runs for the first time.
#[derive(Clone, Copy)]
pub enum Entry {
    /// Run the kernel function at this address.
    Kernel(u64),
    /// Drop to U-mode at the process's entry point.
    User,
    /// Restore the register state saved at the fork and drop to U-mode.
    Forked,
}

/// A thread: a kernel thread, or a user process.
#[derive(Clone, Copy)]
pub struct Process {
    pub pid: u64,
    pub name: &'static str,
    pub state: State,
    pub context: Context,
    pub entry: Entry,
    /// Bottom of the kernel stack; freed when the zombie is reaped.
    pub kstack: u64,
    /// Top of the kernel stack; a user process's trap stack starts here.
    pub kstack_top: u64,
    /// U-mode entry point (virtual address), when this process runs user code.
    pub user_entry: u64,
    /// Initial U-mode stack pointer (virtual address).
    pub user_sp: u64,
    /// Root page table this process runs on. Kernel threads use the shared
    /// kernel table; user processes get their own.
    pub page_table: u64,
    /// Some(root) if `page_table` is a private user table to free on reap.
    pub user_table: Option<u64>,
    /// Bottom of the user heap (fixed); `heap_brk` is its current top. Pages
    /// in between are mapped lazily, on the first page fault that touches
    /// them.
    pub heap_base: u64,
    pub heap_brk: u64,
    /// Open-file table, indexed by file descriptor.
    pub fds: [Option<FdEntry>; 8],
    /// For a forked child: the register state to restore on its first run, so
    /// it resumes exactly where the parent called fork.
    pub fork_frame: Option<TrapFrame>,
}

/// The scheduler's state.
pub struct Scheduler {
    /// Slot table: indices stay stable across exits (slots go back to None).
    pub procs: Vec<Option<Process>>,
    /// Slot index of the thread this hart is executing, if any.
    pub current: Option<usize>,
    /// Round-robin position.
    pub next_slot: usize,
    /// The scheduler loop's own context, living on the boot stack.
    pub scheduler_ctx: Context,
    /// The pid the next thread gets.
    pub next_pid: u64,
    /// Address of the code every thread enters first.
    pub trampoline: u64,
}

/// The thread in slot `i`, if there is one.
pub open spec fn at(procs: Seq<Option<Process>>, i: int) -> Option<Process> {
    if 0 <= i < procs.len() {
        procs[i]
    } else {
        None
    }
}

/// Is slot `i` taken by a thread in state `st`?
pub open spec fn in_state(procs: Seq<Option<Process>>, i: int, st: State) -> bool {
    at(procs, i) matches Some(p) && p.state == st
}

/// The slots with the thread in slot `i` moved to state `st`.
pub open spec fn moved(procs: Seq<Option<Process>>, i: int, st: State) -> Seq<Option<Process>> {
    procs.update(i, Some(Process { state: st, ..procs[i]->0 }))
}

/// The first empty slot from `i` on; the number of slots if there is none.
pub open spec fn first_free(procs: Seq<Option<Process>>, i: int) -> int
    decreases procs.len() - i,
{
    if i >= procs.len() {
        procs.len() as int
    } else if procs[i] is None {
        i
    } else {
        first_free(procs, i + 1)
    }
}

/// The slots with `p` in the first empty one, or in a new one behind them.
pub open spec fn published(procs: Seq<Option<Process>>, p: Process) -> Seq<Option<Process>> {
    let i = first_free(procs, 0);
    if i < procs.len() {
        procs.update(i, Some(p))
    } else {
        procs.push(Some(p))
    }
}

/// The slots with every thread that sleeps on `chan` runnable.
pub open spec fn woken(procs: Seq<Option<Process>>, chan: u64) -> Seq<Option<Process>> {
    procs.map_values(
        |slot: Option<Process>|
            match slot {
                Some(p) => if p.state == State::Sleeping(chan) {
                    Some(Process { state: State::Runnable, ..p })
                } else {
                    slot
                },
                None => slot,
            },
    )
}

impl Scheduler {
    /// The thread this hart is executing.
    pub open spec fn running(self) -> Option<Process> {
        match self.current {
            Some(c) => at(self.procs@, c as int),
            None => None,
        }
    }

    /// The current slot is taken, only the current thread is running, pids
    /// are distinct and below the next one, and the round-robin position is
    /// in the table or one past it.
    pub open spec fn wf(self) -> bool {
        &&& self.current matches Some(c) ==> at(self.procs@, c as int) is Some
        &&& forall|i: int| #[trigger]
            in_state(self.procs@, i, State::Running) ==> self.current == Some(i as usize)
        &&& forall|i: int|
            (#[trigger] at(self.procs@, i)) matches Some(p) ==> 1 <= p.pid < self.next_pid
        &&& forall|i: int, j: int|
            #![trigger at(self.procs@, i), at(self.procs@, j)]
            at(self.procs@, i) is Some && at(self.procs@, j) is Some && i != j ==> at(
                self.procs@,
                i,
            )->0.pid != at(self.procs@, j)->0.pid
        &&& self.next_slot <= self.procs@.len()
        &&& self.next_pid >= 1
    }

    /// No thread yet; threads will start at `trampoline`.
    pub fn new(trampoline: u64) -> (s: Scheduler)
        ensures
            s.wf(),
            s.procs@ == Seq::<Option<Process>>::empty(),
            s.current is None,
            s.next_slot == 0,
            s.next_pid == 1,
            s.trampoline == trampoline,
    {
        Scheduler {
            procs: Vec::new(),
            current: None,
            next_slot: 0,
            scheduler_ctx: Context::zeroed(),
            next_pid: 1,
            trampoline,
        }
    }
}

/// A matched pair of interrupt-disable and -enable around a critical section.
pub open spec fn section(hart: Hart) -> Hart {
    spinlock::popped(spinlock::pushed(hart))
}

/// The CPU is given up: save the context of the thread in `slot`, restore the
/// scheduler's. When the thread runs again, [`resume`] takes it from there.
#[derive(Clone, Copy)]
pub struct Handoff {
    pub slot: usize,
    /// The thread's interrupt intent, saved across the switch.
    pub intena: bool,
}

// --- Access to the scheduler's state -----------------------------------------
//
// There is one hart, and the state is touched inside an interrupt-disabled region
// only. Nothing but the functions below looks at the slots, the running thread, the
// round-robin position and the next pid, or changes them.

/// The slot of the calling thread; None on the scheduler or boot context.
pub(crate) fn current_slot(s: &Scheduler, hart: &Hart) -> (c: Option<usize>)
    requires
        spinlock::masked(*hart),
    ensures
        c == s.current,
{
    s.current
}

/// Make the thread in slot `c` the one this hart executes, or none.
pub(crate) fn set_current(s: &mut Scheduler, hart: &Hart, c: Option<usize>)
    requires
        spinlock::masked(*hart),
    ensures
        *final(s) == (Scheduler { current: c, ..*old(s) }),
{
    s.current = c;
}

/// The round-robin position.
pub(crate) fn next_slot(s: &Scheduler, hart: &Hart) -> (i: usize)
    requires
        spinlock::masked(*hart),
    ensures
        i == s.next_slot,
{
    s.next_slot
}

/// Set the round-robin position.
pub(crate) fn set_next_slot(s: &mut Scheduler, hart: &Hart, i: usize)
    requires
        spinlock::masked(*hart),
    ensures
        *final(s) == (Scheduler { next_slot: i, ..*old(s) }),
{
    s.next_slot = i;
}

/// How many slots there are.
pub(crate) fn slots(s: &Scheduler, hart: &Hart) -> (n: usize)
    requires
        spinlock::masked(*hart),
    ensures
        n == s.procs@.len(),
{
    s.procs.len()
}

/// What is in slot `i`.
pub(crate) fn slot(s: &Scheduler, hart: &Hart, i: usize) -> (p: Option<Process>)
    requires
        spinlock::masked(*hart),
        i < s.procs@.len(),
    ensures
        p == s.procs@[i as int],
        p == at(s.procs@, i as int),
{
    s.procs[i]
}

/// Put `p` into slot `i`.
pub(crate) fn set_slot(s: &mut Scheduler, hart: &Hart, i: usize, p: Option<Process>)
    requires
        spinlock::masked(*hart),
        i < old(s).procs@.len(),
    ensures
        final(s).procs@ == old(s).procs@.update(i as int, p),
        *final(s) == (Scheduler { procs: final(s).procs, ..*old(s) }),
{
    s.procs.set(i, p);
}

/// Put `p` into a new slot behind the others.
fn add_slot(s: &mut Scheduler, hart: &Hart, p: Process)
    requires
        spinlock::masked(*hart),
    ensures
        final(s).procs@ == old(s).procs@.push(Some(p)),
        *final(s) == (Scheduler { procs: final(s).procs, ..*old(s) }),
{
    s.procs.push(Some(p));
}

/// Give out a pid.
fn take_pid(s: &mut Scheduler, hart: &Hart) -> (pid: u64)
    requires
        spinlock::masked(*hart),
        old(s).next_pid < u64::MAX,
    ensures
        pid == old(s).next_pid,
        *final(s) == (Scheduler { next_pid: (old(s).next_pid + 1) as u64, ..*old(s) }),
{
    let pid: u64 = s.next_pid;
    s.next_pid = pid + 1;
    pid
}

/// Move the thread in slot `i` to state `st`.
pub(crate) fn set_state(s: &mut Scheduler, hart: &Hart, i: usize, st: State)
    requires
        spinlock::masked(*hart),
        at(old(s).procs@, i as int) is Some,
    ensures
        final(s).procs@ == moved(old(s).procs@, i as int, st),
        *final(s) == (Scheduler { procs: final(s).procs, ..*old(s) }),
{
    match &mut s.procs[i] {
        Some(p) => {
            p.state = st;
        },
        None => {},
    }
}

/// A copy of the calling process as it is, taken with interrupts off; None on the
/// scheduler or boot context.
pub(crate) fn current_process(s: &Scheduler, hart: &mut Hart) -> (p: Option<Process>)
    requires
        s.wf(),
        old(hart).noff < u64::MAX,
        spinlock::hart_ok(*old(hart)),
    ensures
        p == s.running(),
        *final(hart) == section(*old(hart)),
        spinlock::hart_ok(*final(hart)),
{
    spinlock::push_off(hart);
    let p: Option<Process> = match current_slot(s, hart) {
        Some(cur) => slot(s, hart, cur),
        None => None,
    };
    spinlock::pop_off(hart);
    p
}

// --- Giving up the CPU -------------------------------------------------------

/// Hand the hart to the scheduler. The caller holds exactly one level of
/// interrupt-disable and has already set current's state to its non-Running
/// value.
fn sched(s: &Scheduler, hart: &Hart) -> (h: Handoff)
    requires
        hart.noff == 1,
        spinlock::hart_ok(*hart),
        s.current matches Some(c) && at(s.procs@, c as int) is Some && !in_state(
            s.procs@,
            c as int,
            State::Running,
        ),
    ensures
        h == (Handoff { slot: s.current->0, intena: hart.intena }),
{
    let cur: usize = current_slot(s, hart).unwrap();
    Handoff { slot: cur, intena: spinlock::saved_intena(hart) }
}

/// The hart once the thread goes on that gave up the CPU with `h`.
pub open spec fn gone_on(hart: Hart, h: Handoff) -> Hart {
    spinlock::popped(Hart { intena: h.intena, ..hart })
}

/// Back on the thread's stack: restore its interrupt intent and leave the
/// interrupt-disabled region it gave the CPU up in.
pub fn resume(hart: &mut Hart, h: Handoff)
    requires
        old(hart).noff == 1,
        spinlock::hart_ok(*old(hart)),
    ensures
        *final(hart) == gone_on(*old(hart), h),
        spinlock::hart_ok(*final(hart)),
        final(hart).noff == 0,
{
    spinlock::set_intena(hart, h.intena);
    spinlock::pop_off(hart);
}

/// A moved thread keeps its slot, pid and everything but its state.
proof fn lemma_moved(s1: Scheduler, s2: Scheduler, c: int, st: State)
    requires
        s1.wf(),
        at(s1.procs@, c) is Some,
        s2.procs@ == moved(s1.procs@, c, st),
        s2.current == s1.current,
        s2.next_slot == s1.next_slot,
        s2.next_pid == s1.next_pid,
        st != State::Running,
    ensures
        s2.wf(),
        in_state(s2.procs@, c, st),
{
    assert forall|i: int| #[trigger] in_state(s2.procs@, i, State::Running) implies s2.current
        == Some(i as usize) by {
        assert(in_state(s1.procs@, i, State::Running));
    }
    assert forall|i: int| (#[trigger] at(s2.procs@, i)) is Some implies 1 <= at(
        s2.procs@,
        i,
    )->0.pid < s2.next_pid by {
        assert(at(s1.procs@, i) is Some);
    }
    assert forall|i: int, j: int|
        #![trigger at(s2.procs@, i), at(s2.procs@, j)]
        at(s2.procs@, i) is Some && at(s2.procs@, j) is Some && i != j implies at(
        s2.procs@,
        i,
    )->0.pid != at(s2.procs@, j)->0.pid by {
        assert(at(s1.procs@, i) is Some && at(s1.procs@, j) is Some);
    }
}

/// Cooperatively give up the CPU: the running thread becomes runnable. With no
/// thread running there is nothing to give up.
pub fn yield_now(s: &mut Scheduler, hart: &mut Hart) -> (h: Option<Handoff>)
    requires
        old(s).wf(),
        old(hart).noff < u64::MAX,
        spinlock::hart_ok(*old(hart)),
        old(s).current is Some ==> old(hart).noff == 0,
    ensures
        final(s).wf(),
        spinlock::hart_ok(*final(hart)),
        match old(s).current {
            Some(c) => {
                &&& h == Some(
                    Handoff { slot: c, intena: riscv::sie_on(old(hart).sstatus) },
                )
                &&& final(s).procs@ == moved(old(s).procs@, c as int, State::Runnable)
                &&& *final(s) == (Scheduler { procs: final(s).procs, ..*old(s) })
                &&& *final(hart) == spinlock::pushed(*old(hart))
            },
            None => {
                &&& h is None
                &&& *final(s) == *old(s)
                &&& *final(hart) == section(*old(hart))
            },
        },
{
    spinlock::push_off(hart);
    match current_slot(s, hart) {
        Some(cur) => {
            let ghost s0 = *s;
            set_state(s, hart, cur, State::Runnable);
            proof {
                lemma_moved(s0, *s, cur as int, State::Runnable);
            }
            Some(sched(s, hart))
        },
        None => {
            spinlock::pop_off(hart);
            None
        },
    }
}

/// Called from the timer interrupt: preempt the running thread, if any.
pub fn on_tick_preempt(s: &mut Scheduler, hart: &mut Hart) -> (h: Option<Handoff>)
    requires
        old(s).wf(),
        old(hart).noff < u64::MAX,
        spinlock::hart_ok(*old(hart)),
        old(s).current is Some ==> old(hart).noff == 0,
    ensures
        final(s).wf(),
        spinlock::hart_ok(*final(hart)),
        if old(s).running() matches Some(p) && p.state == State::Running {
            let c = old(s).current->0;
            &&& h == Some(Handoff { slot: c, intena: riscv::sie_on(old(hart).sstatus) })
            &&& final(s).procs@ == moved(old(s).procs@, c as int, State::Runnable)
            &&& *final(s) == (Scheduler { procs: final(s).procs, ..*old(s) })
            &&& final(hart).noff == old(hart).noff + 1
            &&& *final(hart) == spinlock::pushed(section(*old(hart)))
        } else {
            &&& h is None
            &&& *final(s) == *old(s)
            &&& *final(hart) == section(*old(hart))
        },
{
    proof {
        spinlock::lemma_push_pop(*hart);
    }
    spinlock::push_off(hart);
    let should_yield: bool = match current_slot(s, hart) {
        Some(cur) => match slot(s, hart, cur) {
            Some(p) => matches!(p.state, State::Running),
            None => false,
        },
        None => false,
    };
    spinlock::pop_off(hart);
    if should_yield {
        yield_now(s, hart)
    } else {
        None
    }
}

/// Block until `wakeup(chan)`. The caller holds exactly one level of
/// interrupt-disable; the check-condition/sleep sequence is atomic with
/// respect to interrupts, which is what prevents lost wakeups on a single
/// hart.
pub fn sleep(s: &mut Scheduler, hart: &Hart, chan: u64) -> (h: Handoff)
    requires
        old(s).wf(),
        old(s).current is Some,
        hart.noff == 1,
        spinlock::hart_ok(*hart),
    ensures
        final(s).wf(),
        h == (Handoff { slot: old(s).current->0, intena: hart.intena }),
        final(s).procs@ == moved(
            old(s).procs@,
            old(s).current->0 as int,
            State::Sleeping(chan),
        ),
        *final(s) == (Scheduler { procs: final(s).procs, ..*old(s) }),
{
    let cur: usize = current_slot(s, hart).unwrap();
    let ghost s0 = *s;
    set_state(s, hart, cur, State::Sleeping(chan));
    proof {
        lemma_moved(s0, *s, cur as int, State::Sleeping(chan));
    }
    sched(s, hart)
}

/// Waking threads breaks no invariant.
proof fn lemma_woken(s1: Scheduler, s2: Scheduler, chan: u64)
    requires
        s1.wf(),
        s2.procs@ == woken(s1.procs@, chan),
        s2.current == s1.current,
        s2.next_slot == s1.next_slot,
        s2.next_pid == s1.next_pid,
    ensures
        s2.wf(),
{
    assert forall|i: int| #[trigger] in_state(s2.procs@, i, State::Running) implies s2.current
        == Some(i as usize) by {
        assert(in_state(s1.procs@, i, State::Running));
    }
    assert forall|i: int| (#[trigger] at(s2.procs@, i)) is Some implies 1 <= at(
        s2.procs@,
        i,
    )->0.pid < s2.next_pid by {
        assert(at(s1.procs@, i) is Some);
    }
    assert forall|i: int, j: int|
        #![trigger at(s2.procs@, i), at(s2.procs@, j)]
        at(s2.procs@, i) is Some && at(s2.procs@, j) is Some && i != j implies at(
        s2.procs@,
        i,
    )->0.pid != at(s2.procs@, j)->0.pid by {
        assert(at(s1.procs@, i) is Some && at(s1.procs@, j) is Some);
    }
}

/// Make every thread sleeping on `chan` runnable. Safe from interrupts.
pub fn wakeup(s: &mut Scheduler, hart: &mut Hart, chan: u64)
    requires
        old(s).wf(),
        old(hart).noff < u64::MAX,
        spinlock::hart_ok(*old(hart)),
    ensures
        final(s).wf(),
        final(s).procs@ == woken(old(s).procs@, chan),
        *final(s) == (Scheduler { procs: final(s).procs, ..*old(s) }),
        *final(hart) == section(*old(hart)),
        spinlock::hart_ok(*final(hart)),
{
    spinlock::push_off(hart);
    let ghost s0 = *s;
    let n: usize = slots(s, hart);
    let mut i: usize = 0;
    while i < n
        invariant
            i <= n,
            *hart == spinlock::pushed(*old(hart)),
            spinlock::masked(*hart),
            n == s.procs@.len(),
            n == s0.procs@.len(),
            *s == (Scheduler { procs: s.procs, ..s0 }),
            forall|k: int| 0 <= k < i ==> #[trigger] s.procs@[k] == woken(s0.procs@, chan)[k],
            forall|k: int| i <= k < n ==> #[trigger] s.procs@[k] == s0.procs@[k],
        decreases n - i,
    {
        if let Some(p) = slot(s, hart, i) {
            if let State::Sleeping(c) = p.state {
                if c == chan {
                    set_state(s, hart, i, State::Runnable);
                }
            }
        }
        i = i + 1;
    }
    proof {
        assert(s.procs@ =~= woken(s0.procs@, chan));
        lemma_woken(s0, *s, chan);
    }
    spinlock::pop_off(hart);
}

/// Terminate the calling thread: it becomes a zombie and joiners are woken.
/// Its stack is freed later by the scheduler (which by then runs on its own
/// stack).
pub fn exit(s: &mut Scheduler, hart: &mut Hart) -> (h: Handoff)
    requires
        old(s).wf(),
        old(s).current is Some,
        old(hart).noff == 0,
        spinlock::hart_ok(*old(hart)),
    ensures
        final(s).wf(),
        h == (Handoff {
            slot: old(s).current->0,
            intena: riscv::sie_on(old(hart).sstatus),
        }),
        final(s).procs@ == woken(
            moved(old(s).procs@, old(s).current->0 as int, State::Zombie),
            EXIT_CHAN,
        ),
        *final(s) == (Scheduler { procs: final(s).procs, ..*old(s) }),
        in_state(final(s).procs@, old(s).current->0 as int, State::Zombie),
        *final(hart) == spinlock::pushed(*old(hart)),
        spinlock::hart_ok(*final(hart)),
{
    spinlock::push_off(hart);
    let cur: usize = current_slot(s, hart).unwrap();
    let ghost s0 = *s;
    set_state(s, hart, cur, State::Zombie);
    proof {
        lemma_moved(s0, *s, cur as int, State::Zombie);
        spinlock::lemma_push_pop(*hart);
    }
    // Wake joiners before yielding for the last time (the interrupt-disable
    // depth stays 1).
    wakeup(s, hart, EXIT_CHAN);
    sched(s, hart)
}

/// Is the thread in slot `i` the unfinished thread `pid`?
pub open spec fn alive(procs: Seq<Option<Process>>, i: int, pid: u64) -> bool {
    at(procs, i) matches Some(p) && p.pid == pid && p.state != State::Zombie
}

/// Is there a thread `pid` that has not finished?
pub open spec fn unfinished(procs: Seq<Option<Process>>, pid: u64) -> bool {
    exists|i: int| #[trigger] alive(procs, i, pid)
}

/// One round of waiting until process `pid` has finished (become a zombie or
/// been reaped). None when it has, or when no such pid exists; otherwise the
/// caller sleeps until some process exits, and asks again. The check and the
/// sleep are one step, so the exit that would wake the caller cannot slip in
/// between.
pub fn join(s: &mut Scheduler, hart: &mut Hart, pid: u64) -> (h: Option<Handoff>)
    requires
        old(s).wf(),
        old(s).current is Some,
        old(hart).noff == 0,
        spinlock::hart_ok(*old(hart)),
    ensures
        final(s).wf(),
        spinlock::hart_ok(*final(hart)),
        if unfinished(old(s).procs@, pid) {
            let c = old(s).current->0;
            &&& h == Some(Handoff { slot: c, intena: riscv::sie_on(old(hart).sstatus) })
            &&& final(s).procs@ == moved(old(s).procs@, c as int, State::Sleeping(EXIT_CHAN))
            &&& *final(s) == (Scheduler { procs: final(s).procs, ..*old(s) })
            &&& *final(hart) == spinlock::pushed(*old(hart))
        } else {
            &&& h is None
            &&& *final(s) == *old(s)
            &&& *final(hart) == section(*old(hart))
        },
{
    spinlock::push_off(hart);
    let n: usize = slots(s, hart);
    let mut still_running: bool = false;
    let mut i: usize = 0;
    while i < n
        invariant
            i <= n,
            spinlock::masked(*hart),
            n == s.procs@.len(),
            still_running == exists|k: int| k < i && #[trigger] alive(s.procs@, k, pid),
        decreases n - i,
    {
        let hit: bool = match slot(s, hart, i) {
            Some(p) => p.pid == pid && !matches!(p.state, State::Zombie),
            None => false,
        };
        assert(hit == alive(s.procs@, i as int, pid));
        if hit {
            still_running = true;
        }
        i = i + 1;
    }
    if !still_running {
        spinlock::pop_off(hart);
        return None;
    }
    Some(sleep(s, hart, EXIT_CHAN))
}

// --- Creating threads --------------------------------------------------------

/// The user side of a process: its address space, where it starts, its heap
/// and open files, and for a forked child the registers to restore.
#[derive(Clone, Copy)]
pub struct UserSpace {
    pub table: u64,
    pub entry: u64,
    pub sp: u64,
    pub heap_base: u64,
    pub heap_brk: u64,
    pub fds: [Option<FdEntry>; 8],
    pub fork_frame: Option<TrapFrame>,
}

/// Top of the kernel stack whose bottom is `kstack`, 16-byte aligned per the
/// ABI.
pub open spec fn stack_top(kstack: u64) -> u64 {
    ((kstack + KSTACK_SIZE) as u64) & !0xfu64
}

/// `p` is a new kernel thread: runnable, on the kernel's table, with no open
/// file, its forged context such that the first switch to it "returns" to the
/// trampoline on the fresh stack.
pub open spec fn fresh_thread(
    p: Process,
    pid: u64,
    name: &'static str,
    entry: Entry,
    kstack: u64,
    root: u64,
    trampoline: u64,
) -> bool {
    &&& p.pid == pid
    &&& p.name == name
    &&& p.state == State::Runnable
    &&& p.context.ra == trampoline
    &&& p.context.sp == stack_top(kstack)
    &&& forall|i: int| 0 <= i < 12 ==> #[trigger] p.context.s@[i] == 0
    &&& p.entry == entry
    &&& p.kstack == kstack
    &&& p.kstack_top == stack_top(kstack)
    &&& p.user_entry == 0
    &&& p.user_sp == 0
    &&& p.page_table == root
    &&& p.user_table is None
    &&& p.heap_base == 0
    &&& p.heap_brk == 0
    &&& forall|i: int| 0 <= i < 8 ==> #[trigger] p.fds@[i] is None
    &&& p.fork_frame is None
}

/// `p` is a new user process: a new thread with the user side filled in.
pub open spec fn fresh_user(
    p: Process,
    pid: u64,
    name: &'static str,
    entry: Entry,
    kstack: u64,
    u: UserSpace,
    trampoline: u64,
) -> bool {
    &&& p.pid == pid
    &&& p.name == name
    &&& p.state == State::Runnable
    &&& p.context.ra == trampoline
    &&& p.context.sp == stack_top(kstack)
    &&& forall|i: int| 0 <= i < 12 ==> #[trigger] p.context.s@[i] == 0
    &&& p.entry == entry
    &&& p.kstack == kstack
    &&& p.kstack_top == stack_top(kstack)
    &&& p.user_entry == u.entry
    &&& p.user_sp == u.sp
    &&& p.page_table == u.table
    &&& p.user_table == Some(u.table)
    &&& p.heap_base == u.heap_base
    &&& p.heap_brk == u.heap_brk
    &&& p.fds == u.fds
    &&& p.fork_frame == u.fork_frame
}

/// The slot a new thread gets.
pub open spec fn new_slot(procs: Seq<Option<Process>>) -> int {
    first_free(procs, 0)
}

/// What publishing a thread changes: its slot, and the next pid.
pub open spec fn grew(s1: Scheduler, s2: Scheduler) -> bool {
    let i = new_slot(s1.procs@);
    &&& at(s2.procs@, i) is Some
    &&& s2.procs@ == published(s1.procs@, at(s2.procs@, i)->0)
    &&& s2.next_pid == s1.next_pid + 1
    &&& s2 == (Scheduler { procs: s2.procs, next_pid: s2.next_pid, ..s1 })
}

pub proof fn lemma_first_free(procs: Seq<Option<Process>>, i: int)
    requires
        0 <= i <= procs.len(),
        forall|k: int| 0 <= k < i ==> #[trigger] procs[k] is Some,
    ensures
        i <= first_free(procs, i) <= procs.len(),
        forall|k: int| 0 <= k < first_free(procs, i) ==> #[trigger] procs[k] is Some,
        first_free(procs, i) < procs.len() ==> procs[first_free(procs, i)] is None,
    decreases procs.len() - i,
{
    if i < procs.len() && procs[i] is Some {
        lemma_first_free(procs, i + 1);
    }
}

/// A thread with the next pid can join the others.
proof fn lemma_published(s1: Scheduler, s2: Scheduler, p: Process)
    requires
        s1.wf(),
        p.pid == s1.next_pid,
        p.state == State::Runnable,
        s2.procs@ == published(s1.procs@, p),
        s2.current == s1.current,
        s2.next_slot == s1.next_slot,
        s2.next_pid == s1.next_pid + 1,
    ensures
        s2.wf(),
        at(s2.procs@, new_slot(s1.procs@)) == Some(p),
        forall|k: int|
            k != new_slot(s1.procs@) ==> #[trigger] at(s2.procs@, k) == at(s1.procs@, k),
        at(s1.procs@, new_slot(s1.procs@)) is None,
{
    lemma_first_free(s1.procs@, 0);
    assert forall|k: int| k != new_slot(s1.procs@) implies #[trigger] at(s2.procs@, k) == at(
        s1.procs@,
        k,
    ) by {}
    assert forall|i: int| #[trigger] in_state(s2.procs@, i, State::Running) implies s2.current
        == Some(i as usize) by {
        assert(in_state(s1.procs@, i, State::Running));
    }
    assert forall|i: int| (#[trigger] at(s2.procs@, i)) is Some implies 1 <= at(
        s2.procs@,
        i,
    )->0.pid < s2.next_pid by {
        if i != new_slot(s1.procs@) {
            assert(at(s1.procs@, i) is Some);
        }
    }
    assert forall|i: int, j: int|
        #![trigger at(s2.procs@, i), at(s2.procs@, j)]
        at(s2.procs@, i) is Some && at(s2.procs@, j) is Some && i != j implies at(
        s2.procs@,
        i,
    )->0.pid != at(s2.procs@, j)->0.pid by {
        let n = new_slot(s1.procs@);
        if i != n {
            assert(at(s1.procs@, i) is Some);
        }
        if j != n {
            assert(at(s1.procs@, j) is Some);
        }
    }
}

/// Attach a freshly built user address space to a process: its private table,
/// entry and stack, its heap and its files.
fn attach_user_space(p: &mut Process, u: &UserSpace)
    ensures
        *final(p) == (Process {
            page_table: u.table,
            user_table: Some(u.table),
            user_entry: u.entry,
            user_sp: u.sp,
            heap_base: u.heap_base,
            heap_brk: u.heap_brk,
            fds: u.fds,
            fork_frame: u.fork_frame,
            ..*old(p)
        }),
{
    p.page_table = u.table;
    p.user_table = Some(u.table);
    p.user_entry = u.entry;
    p.user_sp = u.sp;
    p.heap_base = u.heap_base;
    p.heap_brk = u.heap_brk;
    p.fds = u.fds;
    p.fork_frame = u.fork_frame;
}

/// Build a thread, fill in its user side, and publish it to the scheduler as
/// runnable. Everything is set before the thread becomes visible, so a
/// preemption right after publication can never observe a half-initialized
/// one. `kstack` is the bottom of its kernel stack.
#[verifier::rlimit(60)]
pub fn spawn_with(
    s: &mut Scheduler,
    hart: &mut Hart,
    name: &'static str,
    entry: Entry,
    kstack: u64,
    root: u64,
    user: Option<UserSpace>,
) -> (pid: u64)
    requires
        old(s).wf(),
        old(s).next_pid < u64::MAX,
        old(hart).noff < u64::MAX,
        spinlock::hart_ok(*old(hart)),
        kstack + KSTACK_SIZE <= u64::MAX,
    ensures
        final(s).wf(),
        pid == old(s).next_pid,
        grew(*old(s), *final(s)),
        at(old(s).procs@, new_slot(old(s).procs@)) is None,
        ({
            let p = at(final(s).procs@, new_slot(old(s).procs@))->0;
            match user {
                Some(u) => fresh_user(p, pid, name, entry, kstack, u, old(s).trampoline),
                None => fresh_thread(p, pid, name, entry, kstack, root, old(s).trampoline),
            }
        }),
        *final(hart) == section(*old(hart)),
        spinlock::hart_ok(*final(hart)),
{
    spinlock::push_off(hart);
    let ghost s0 = *s;
    // Stack grows down from the top.
    let top: u64 = (kstack + KSTACK_SIZE) & !0xfu64;
    let pid: u64 = take_pid(s, hart);
    let mut context: Context = Context::zeroed();
    // Forged context: the first switch into this thread "returns" to the
    // trampoline on the fresh stack.
    context.ra = s.trampoline;
    context.sp = top;
    let mut p: Process = Process {
        pid,
        name,
        state: State::Runnable,
        context,
        entry,
        kstack,
        kstack_top: top,
        user_entry: 0,
        user_sp: 0,
        page_table: root,
        user_table: None,
        heap_base: 0,
        heap_brk: 0,
        fds: [None; 8],
        fork_frame: None,
    };
    if let Some(u) = user {
        attach_user_space(&mut p, &u);
    }
    let n: usize = slots(s, hart);
    let mut i: usize = 0;
    while i < n && slot(s, hart, i).is_some()
        invariant
            i <= n,
            spinlock::masked(*hart),
            n == s.procs@.len(),
            first_free(s.procs@, 0) == first_free(s.procs@, i as int),
        decreases n - i,
    {
        i = i + 1;
    }
    if i < n {
        set_slot(s, hart, i, Some(p));
    } else {
        add_slot(s, hart, p);
    }
    proof {
        assert(i == first_free(s0.procs@, 0));
        lemma_published(s0, *s, p);
    }
    spinlock::pop_off(hart);
    pid
}

/// Create a kernel thread that starts at `entry`; returns its pid.
pub fn spawn(
    s: &mut Scheduler,
    hart: &mut Hart,
    name: &'static str,
    entry: u64,
    kstack: u64,
    root: u64,
) -> (pid: u64)
    requires
        old(s).wf(),
        old(s).next_pid < u64::MAX,
        old(hart).noff < u64::MAX,
        spinlock::hart_ok(*old(hart)),
        kstack + KSTACK_SIZE <= u64::MAX,
    ensures
        final(s).wf(),
        pid == old(s).next_pid,
        grew(*old(s), *final(s)),
        at(old(s).procs@, new_slot(old(s).procs@)) is None,
        fresh_thread(
            at(final(s).procs@, new_slot(old(s).procs@))->0,
            pid,
            name,
            Entry::Kernel(entry),
            kstack,
            root,
            old(s).trampoline,
        ),
        *final(hart) == section(*old(hart)),
        spinlock::hart_ok(*final(hart)),
{
    spawn_with(s, hart, name, Entry::Kernel(entry), kstack, root, None)
}

// --- The first code of a thread ----------------------------------------------

/// What `sret` needs to drop to U-mode.
#[derive(Clone, Copy)]
pub struct UserEntry {
    /// Initial stack pointer.
    pub sp: u64,
}

/// `sstatus` such that `sret` goes to U-mode with interrupts on.
pub open spec fn user_sstatus(sstatus: u64) -> u64 {
    (riscv::without_sie(sstatus) & !riscv::SSTATUS_SPP) | riscv::SSTATUS_SPIE
}

/// Prepare to drop to U-mode at `entry`: no interrupts between arming
/// `sscratch` and the `sret`, because a trap in that window would take the
/// user path with a half-built state.
pub fn enter_user(hart: &mut Hart, entry: u64, user_sp: u64, kstack_top: u64) -> (e: UserEntry)
    ensures
        e == (UserEntry { sp: user_sp }),
        *final(hart) == (Hart {
            sscratch: kstack_top,
            sepc: entry,
            sstatus: user_sstatus(old(hart).sstatus),
            ..*old(hart)
        }),
{
    riscv::intr_off(hart);
    hart.sscratch = kstack_top;
    hart.sepc = entry;
    hart.sstatus = hart.sstatus & !riscv::SSTATUS_SPP;
    hart.sstatus = hart.sstatus | riscv::SSTATUS_SPIE;
    UserEntry { sp: user_sp }
}

/// What a thread does first.
#[derive(Clone, Copy)]
pub enum First {
    /// Call the kernel function at this address, then exit.
    Call(u64),
    /// Drop to U-mode.
    User(UserEntry),
    /// Restore this register state and drop to U-mode; traps arrive on the
    /// kernel stack whose top is given.
    Restore(TrapFrame, u64),
}

/// The running process can start: a forked child has registers to restore,
/// another user process an entry point.
pub open spec fn startable(p: Process) -> bool {
    match p.entry {
        Entry::Kernel(_) => true,
        Entry::User => p.user_entry != 0,
        Entry::Forked => p.fork_frame is Some,
    }
}

/// What a thread does first, with interrupts on unless it drops to U-mode.
pub open spec fn entered(p: Process, h1: Hart, h2: Hart, first: First) -> bool {
    let on = Hart {
        sstatus: riscv::with_sie(h1.sstatus),
        noff: 0,
        intena: true,
        ..h1
    };
    match p.entry {
        Entry::Kernel(f) => {
            &&& first == First::Call(f)
            &&& h2 == on
        },
        Entry::User => {
            &&& first == First::User(UserEntry { sp: p.user_sp })
            &&& h2 == (Hart {
                sscratch: p.kstack_top,
                sepc: p.user_entry,
                sstatus: user_sstatus(on.sstatus),
                ..on
            })
        },
        Entry::Forked => {
            &&& first == First::Restore(p.fork_frame->0, p.kstack_top)
            &&& h2 == (Hart { sstatus: riscv::without_sie(on.sstatus), ..on })
        },
    }
}

/// First code every thread runs, entered via the forged context's `ra`. It
/// arrives holding the scheduler's level of interrupt-disable, releases it and
/// runs the thread body with interrupts on.
pub fn thread_entry(s: &Scheduler, hart: &mut Hart) -> (first: First)
    requires
        s.running() matches Some(p) && startable(p),
        old(hart).noff == 1,
        spinlock::hart_ok(*old(hart)),
    ensures
        final(hart).noff == 0,
        spinlock::hart_ok(*final(hart)),
        entered(s.running()->0, *old(hart), *final(hart), first),
{
    proof {
        riscv::lemma_sie(hart.sstatus);
        riscv::lemma_sie(riscv::with_sie(hart.sstatus));
    }
    spinlock::pop_off(hart);
    riscv::intr_on(hart);
    proof {
        riscv::lemma_sie(hart.sstatus);
        spinlock::lemma_push_pop(*hart);
    }
    spinlock::push_off(hart);
    let cur: usize = current_slot(s, hart).unwrap();
    let p: Process = slot(s, hart, cur).unwrap();
    spinlock::pop_off(hart);
    match p.entry {
        Entry::Kernel(f) => First::Call(f),
        Entry::User => First::User(user_thread_body(&p, hart)),
        Entry::Forked => forkret_body(&p, hart),
    }
}

/// Kernel-side body of a user process: drop to U-mode. The address space is
/// already built and active.
fn user_thread_body(p: &Process, hart: &mut Hart) -> (e: UserEntry)
    requires
        p.user_entry != 0,
    ensures
        e == (UserEntry { sp: p.user_sp }),
        *final(hart) == (Hart {
            sscratch: p.kstack_top,
            sepc: p.user_entry,
            sstatus: user_sstatus(old(hart).sstatus),
            ..*old(hart)
        }),
{
    enter_user(hart, p.user_entry, p.user_sp, p.kstack_top)
}

/// First code a forked child runs: restore the saved frame and drop to user.
fn forkret_body(p: &Process, hart: &mut Hart) -> (first: First)
    requires
        p.fork_frame is Some,
    ensures
        first == First::Restore(p.fork_frame->0, p.kstack_top),
        *final(hart) == (Hart {
            sstatus: riscv::without_sie(old(hart).sstatus),
            ..*old(hart)
        }),
{
    riscv::intr_off(hart);
    First::Restore(p.fork_frame.unwrap(), p.kstack_top)
}

// --- The calling process -----------------------------------------------------

/// A change to a thread that keeps its pid and state breaks no invariant.
pub proof fn lemma_changed(s1: Scheduler, s2: Scheduler, c: int)
    requires
        s1.wf(),
        at(s1.procs@, c) is Some,
        at(s2.procs@, c) is Some,
        s2.procs@ == s1.procs@.update(c, s2.procs@[c]),
        at(s2.procs@, c)->0.pid == at(s1.procs@, c)->0.pid,
        at(s2.procs@, c)->0.state == at(s1.procs@, c)->0.state,
        s2.current == s1.current,
        s2.next_slot == s1.next_slot,
        s2.next_pid == s1.next_pid,
    ensures
        s2.wf(),
{
    assert forall|i: int| #[trigger] in_state(s2.procs@, i, State::Running) implies s2.current
        == Some(i as usize) by {
        assert(in_state(s1.procs@, i, State::Running));
    }
    assert forall|i: int| (#[trigger] at(s2.procs@, i)) is Some implies 1 <= at(
        s2.procs@,
        i,
    )->0.pid < s2.next_pid by {
        assert(at(s1.procs@, i) is Some);
    }
    assert forall|i: int, j: int|
        #![trigger at(s2.procs@, i), at(s2.procs@, j)]
        at(s2.procs@, i) is Some && at(s2.procs@, j) is Some && i != j implies at(
        s2.procs@,
        i,
    )->0.pid != at(s2.procs@, j)->0.pid by {
        assert(at(s1.procs@, i) is Some && at(s1.procs@, j) is Some);
    }
}

/// `s2` is `s1` with the process in slot `c` replaced by `p`.
pub open spec fn replaced(s1: Scheduler, s2: Scheduler, c: int, p: Process) -> bool {
    &&& s2.procs@ == s1.procs@.update(c, Some(p))
    &&& s2 == (Scheduler { procs: s2.procs, ..s1 })
}

/// The first closed descriptor from `i` on; 8 if all are open.
pub open spec fn first_fd(fds: Seq<Option<FdEntry>>, i: int) -> int
    decreases 8 - i,
{
    if i >= 8 {
        8
    } else if fds[i] is None {
        i
    } else {
        first_fd(fds, i + 1)
    }
}

/// `p2` is `p` with descriptor `fd` set to `e`.
pub open spec fn fd_set(p: Process, p2: Process, fd: int, e: Option<FdEntry>) -> bool {
    &&& p2.fds@ == p.fds@.update(fd, e)
    &&& p2 == (Process { fds: p2.fds, ..p })
}

/// Install file `file_idx` in the calling process's fd table; returns the new
/// descriptor, or None if the table is full.
pub fn fd_install(s: &mut Scheduler, hart: &mut Hart, file_idx: usize) -> (fd: Option<usize>)
    requires
        old(s).wf(),
        old(hart).noff < u64::MAX,
        spinlock::hart_ok(*old(hart)),
    ensures
        final(s).wf(),
        *final(hart) == section(*old(hart)),
        spinlock::hart_ok(*final(hart)),
        match old(s).running() {
            Some(p) => {
                let i = first_fd(p.fds@, 0);
                if i < 8 {
                    &&& (fd matches Some(f) && f == i)
                    &&& final(s).running() is Some
                    &&& fd_set(
                        p,
                        final(s).running()->0,
                        i,
                        Some(FdEntry { file_idx, offset: 0 }),
                    )
                    &&& replaced(
                        *old(s),
                        *final(s),
                        old(s).current->0 as int,
                        final(s).running()->0,
                    )
                } else {
                    &&& fd is None
                    &&& *final(s) == *old(s)
                }
            },
            None => {
                &&& fd is None
                &&& *final(s) == *old(s)
            },
        },
{
    spinlock::push_off(hart);
    let ghost s0 = *s;
    let fd: Option<usize> = match current_slot(s, hart) {
        Some(cur) => {
            let mut p: Process = slot(s, hart, cur).unwrap();
            let mut fd: usize = 0;
            while fd < MAX_FDS && p.fds[fd].is_some()
                invariant
                    fd <= 8,
                    first_fd(p.fds@, 0) == first_fd(p.fds@, fd as int),
                decreases 8 - fd,
            {
                fd = fd + 1;
            }
            if fd == MAX_FDS {
                None
            } else {
                p.fds[fd] = Some(FdEntry { file_idx, offset: 0 });
                set_slot(s, hart, cur, Some(p));
                proof {
                    lemma_changed(s0, *s, cur as int);
                }
                Some(fd)
            }
        },
        None => None,
    };
    spinlock::pop_off(hart);
    fd
}

/// The entry descriptor `fd` of `p` refers to.
pub open spec fn fd_entry(p: Process, fd: u64) -> Option<FdEntry> {
    if fd < 8 {
        p.fds@[fd as int]
    } else {
        None
    }
}

/// The (file index, current read offset) an fd refers to, or None if the fd is
/// not open in the calling process.
pub fn fd_lookup(s: &Scheduler, hart: &mut Hart, fd: u64) -> (entry: Option<(usize, usize)>)
    requires
        s.wf(),
        old(hart).noff < u64::MAX,
        spinlock::hart_ok(*old(hart)),
    ensures
        *final(hart) == section(*old(hart)),
        spinlock::hart_ok(*final(hart)),
        entry == match s.running() {
            Some(p) => match fd_entry(p, fd) {
                Some(e) => Some((e.file_idx, e.offset)),
                None => None,
            },
            None => None,
        },
{
    match current_process(s, hart) {
        Some(p) => {
            if fd >= 8 {
                return None;
            }
            match p.fds[fd as usize] {
                Some(e) => Some((e.file_idx, e.offset)),
                None => None,
            }
        },
        None => None,
    }
}

/// Advance an fd's read cursor by `delta`.
pub fn fd_advance(s: &mut Scheduler, hart: &mut Hart, fd: u64, delta: usize)
    requires
        old(s).wf(),
        old(hart).noff < u64::MAX,
        spinlock::hart_ok(*old(hart)),
        old(s).running() matches Some(p) ==> fd_entry(p, fd) matches Some(e) ==> e.offset + delta
            <= usize::MAX,
    ensures
        final(s).wf(),
        *final(hart) == section(*old(hart)),
        spinlock::hart_ok(*final(hart)),
        if old(s).running() matches Some(p) && fd_entry(p, fd) is Some {
            let e = fd_entry(old(s).running()->0, fd)->0;
            &&& final(s).running() is Some
            &&& fd_set(
                old(s).running()->0,
                final(s).running()->0,
                fd as int,
                Some(FdEntry { file_idx: e.file_idx, offset: (e.offset + delta) as usize }),
            )
            &&& replaced(
                *old(s),
                *final(s),
                old(s).current->0 as int,
                final(s).running()->0,
            )
        } else {
            *final(s) == *old(s)
        },
{
    spinlock::push_off(hart);
    let ghost s0 = *s;
    if let Some(cur) = current_slot(s, hart) {
        let mut p: Process = slot(s, hart, cur).unwrap();
        if fd < 8 {
            if let Some(e) = p.fds[fd as usize] {
                p.fds[fd as usize] =
                Some(FdEntry { file_idx: e.file_idx, offset: e.offset + delta });
                set_slot(s, hart, cur, Some(p));
                proof {
                    lemma_changed(s0, *s, cur as int);
                }
            }
        }
    }
    spinlock::pop_off(hart);
}

/// Close an fd; returns false if it was not open.
pub fn fd_close(s: &mut Scheduler, hart: &mut Hart, fd: u64) -> (was_open: bool)
    requires
        old(s).wf(),
        old(hart).noff < u64::MAX,
        spinlock::hart_ok(*old(hart)),
    ensures
        final(s).wf(),
        *final(hart) == section(*old(hart)),
        spinlock::hart_ok(*final(hart)),
        was_open == (old(s).running() matches Some(p) && fd_entry(p, fd) is Some),
        if was_open {
            &&& final(s).running() is Some
            &&& fd_set(old(s).running()->0, final(s).running()->0, fd as int, None)
            &&& replaced(
                *old(s),
                *final(s),
                old(s).current->0 as int,
                final(s).running()->0,
            )
        } else {
            *final(s) == *old(s)
        },
{
    spinlock::push_off(hart);
    let ghost s0 = *s;
    let was_open: bool = match current_slot(s, hart) {
        Some(cur) => {
            let mut p: Process = slot(s, hart, cur).unwrap();
            if fd < 8 && p.fds[fd as usize].is_some() {
                p.fds[fd as usize] = None;
                set_slot(s, hart, cur, Some(p));
                proof {
                    lemma_changed(s0, *s, cur as int);
                }
                true
            } else {
                false
            }
        },
        None => false,
    };
    spinlock::pop_off(hart);
    was_open
}

/// The page table of the calling process: the address space its user pointers
/// refer to. Falls back to the kernel table `root` off any thread.
pub fn current_root(s: &Scheduler, hart: &mut Hart, root: u64) -> (table: u64)
    requires
        s.wf(),
        old(hart).noff < u64::MAX,
        spinlock::hart_ok(*old(hart)),
    ensures
        *final(hart) == section(*old(hart)),
        spinlock::hart_ok(*final(hart)),
        table == match s.running() {
            Some(p) => p.page_table,
            None => root,
        },
{
    match current_process(s, hart) {
        Some(p) => p.page_table,
        None => root,
    }
}

/// What a syscall returns when it fails.
pub const ERR: u64 = 0xffff_ffff_ffff_ffff;

/// Grow (or query, with delta 0) the calling process's heap. Returns the old
/// break, the base of the freshly reserved region, or [`ERR`] if the growth
/// would exceed `USER_HEAP_MAX` or there is no calling process. Only positive
/// deltas are supported; the new pages are mapped lazily, on the first fault.
pub fn sbrk(s: &mut Scheduler, hart: &mut Hart, delta: u64) -> (brk: u64)
    requires
        old(s).wf(),
        old(hart).noff < u64::MAX,
        spinlock::hart_ok(*old(hart)),
    ensures
        final(s).wf(),
        *final(hart) == section(*old(hart)),
        spinlock::hart_ok(*final(hart)),
        if old(s).running() matches Some(p) && p.heap_brk + delta <= USER_HEAP_MAX {
            let p = old(s).running()->0;
            &&& brk == p.heap_brk
            &&& replaced(
                *old(s),
                *final(s),
                old(s).current->0 as int,
                Process { heap_brk: (p.heap_brk + delta) as u64, ..p },
            )
        } else {
            &&& brk == ERR
            &&& *final(s) == *old(s)
        },
{
    spinlock::push_off(hart);
    let ghost s0 = *s;
    let brk: u64 = match current_slot(s, hart) {
        Some(cur) => {
            let mut p: Process = slot(s, hart, cur).unwrap();
            let old_brk: u64 = p.heap_brk;
            match old_brk.checked_add(delta) {
                Some(new) => {
                    if new > USER_HEAP_MAX {
                        ERR
                    } else {
                        p.heap_brk = new;
                        set_slot(s, hart, cur, Some(p));
                        proof {
                            lemma_changed(s0, *s, cur as int);
                        }
                        old_brk
                    }
                },
                None => ERR,
            }
        },
        None => ERR,
    };
    spinlock::pop_off(hart);
    brk
}

/// The pid of the calling thread (0 for the scheduler or boot context).
pub fn current_pid(s: &Scheduler, hart: &mut Hart) -> (pid: u64)
    requires
        s.wf(),
        old(hart).noff < u64::MAX,
        spinlock::hart_ok(*old(hart)),
    ensures
        *final(hart) == section(*old(hart)),
        spinlock::hart_ok(*final(hart)),
        pid == match s.running() {
            Some(p) => p.pid,
            None => 0,
        },
{
    match current_process(s, hart) {
        Some(p) => p.pid,
        None => 0,
    }
}

/// (pid, name, state) of the threads in the first `n` slots.
pub open spec fn listing(procs: Seq<Option<Process>>, n: int) -> Seq<(u64, &'static str, State)>
    decreases n,
{
    if n <= 0 {
        Seq::empty()
    } else {
        match procs[n - 1] {
            Some(p) => listing(procs, n - 1).push((p.pid, p.name, p.state)),
            None => listing(procs, n - 1),
        }
    }
}

/// Snapshot of (pid, name, state) for diagnostics (the shell's `ps`).
pub fn process_list(s: &Scheduler, hart: &mut Hart) -> (list: Vec<(u64, &'static str, State)>)
    requires
        s.wf(),
        old(hart).noff < u64::MAX,
        spinlock::hart_ok(*old(hart)),
    ensures
        *final(hart) == section(*old(hart)),
        spinlock::hart_ok(*final(hart)),
        list@ == listing(s.procs@, s.procs@.len() as int),
{
    spinlock::push_off(hart);
    let mut list: Vec<(u64, &'static str, State)> = Vec::new();
    let mut i: usize = 0;
    while i < slots(s, hart)
        invariant
            i <= s.procs@.len(),
            spinlock::masked(*hart),
            *hart == spinlock::pushed(*old(hart)),
            list@ == listing(s.procs@, i as int),
        decreases s.procs@.len() - i,
    {
        if let Some(p) = slot(s, hart, i) {
            list.push((p.pid, p.name, p.state));
        }
        i = i + 1;
    }
    spinlock::pop_off(hart);
    list
}

/// No wakeup is lost: a thread that went to sleep on `chan` runs again after
/// the next wakeup there, and one that sleeps on another channel sleeps on.
pub proof fn lemma_woken_up(procs: Seq<Option<Process>>, c: int, chan: u64, other: u64)
    requires
        at(procs, c) is Some,
        other != chan,
    ensures
        in_state(woken(moved(procs, c, State::Sleeping(chan)), chan), c, State::Runnable),
        in_state(
            woken(moved(procs, c, State::Sleeping(chan)), other),
            c,
            State::Sleeping(chan),
        ),
        forall|i: int|
            i != c ==> #[trigger] at(woken(moved(procs, c, State::Sleeping(chan)), chan), i) == at(
                woken(procs, chan),
                i,
            ),
{
}

/// A thread is unfinished as long as it runs, could run, or sleeps on whatever
/// channel.
pub proof fn lemma_unfinished(procs: Seq<Option<Process>>, pid: u64)
    ensures
        unfinished(procs, pid) <==> exists|i: int|
            0 <= i < procs.len() && (#[trigger] procs[i]) is Some && procs[i]->0.pid == pid && (
            procs[i]->0.state is Runnable || procs[i]->0.state is Running
                || procs[i]->0.state is Sleeping),
{
    if unfinished(procs, pid) {
        let i = choose|i: int| #[trigger] alive(procs, i, pid);
        assert(procs[i] is Some);
    }
    if exists|i: int|
        0 <= i < procs.len() && (#[trigger] procs[i]) is Some && procs[i]->0.pid == pid && (
        procs[i]->0.state is Runnable || procs[i]->0.state is Running
            || procs[i]->0.state is Sleeping) {
        let i = choose|i: int|
            0 <= i < procs.len() && (#[trigger] procs[i]) is Some && procs[i]->0.pid == pid && (
            procs[i]->0.state is Runnable || procs[i]->0.state is Running
                || procs[i]->0.state is Sleeping);
        assert(alive(procs, i, pid));
    }
}

/// A thread that exits is finished for good, and everyone who waits for an exit
/// gets to look again.
pub proof fn lemma_exit_joined(s: Scheduler, c: int, i: int)
    requires
        s.wf(),
        at(s.procs@, c) is Some,
        i != c,
        in_state(s.procs@, i, State::Sleeping(EXIT_CHAN)),
    ensures
        ({
            let after = woken(moved(s.procs@, c, State::Zombie), EXIT_CHAN);
            &&& !unfinished(after, at(s.procs@, c)->0.pid)
            &&& in_state(after, i, State::Runnable)
        }),
{
    let after = woken(moved(s.procs@, c, State::Zombie), EXIT_CHAN);
    let pid = at(s.procs@, c)->0.pid;
    assert forall|j: int| !(#[trigger] alive(after, j, pid)) by {
        if j != c && at(after, j) is Some {
            assert(at(s.procs@, j) is Some);
            assert(at(s.procs@, j)->0.pid != pid);
        }
    }
}

/// A closed descriptor can be handed out again: the next file opened gets it or
/// a lower one.
pub proof fn lemma_fd_reused(fds: Seq<Option<FdEntry>>, fd: int, i: int)
    requires
        fds.len() == 8,
        0 <= i <= fd < 8,
    ensures
        first_fd(fds.update(fd, None), i) <= fd,
    decreases 8 - i,
{
    if i < fd {
        lemma_fd_reused(fds, fd, i + 1);
    }
}

/// The entry `e` tells of the thread in slot `i`.
pub open spec fn tells(procs: Seq<Option<Process>>, i: int, e: (u64, &'static str, State)) -> bool {
    &&& 0 <= i < procs.len()
    &&& procs[i] is Some
    &&& e.0 == procs[i]->0.pid
    &&& e.1 == procs[i]->0.name
    &&& e.2 == procs[i]->0.state
}

/// The entry `e` tells of a thread in a slot from `lo` up to `hi`.
pub open spec fn tells_some(
    procs: Seq<Option<Process>>,
    lo: int,
    hi: int,
    e: (u64, &'static str, State),
) -> bool {
    exists|i: int| lo <= i < hi && #[trigger] tells(procs, i, e)
}

/// The list of threads names every thread that there is, with its pid, name and state, and
/// nothing else.
pub proof fn lemma_listing(procs: Seq<Option<Process>>, n: int)
    requires
        0 <= n <= procs.len(),
    ensures
        listing(procs, n).len() <= n,
        forall|i: int|
            0 <= i < n && (#[trigger] procs[i]) is Some ==> exists|k: int|
                0 <= k < listing(procs, n).len() && tells(procs, i, #[trigger] listing(procs, n)[k]),
        forall|k: int|
            0 <= k < listing(procs, n).len() ==> tells_some(procs, k, n, #[trigger] listing(procs, n)[k]),
        (forall|i: int| 0 <= i < n ==> (#[trigger] procs[i]) is Some) ==> listing(procs, n).len() == n,
    decreases n,
{
    if n > 0 {
        lemma_listing(procs, n - 1);
        let before = listing(procs, n - 1);
        let after = listing(procs, n);
        let some = procs[n - 1] is Some;
        assert(forall|k: int| 0 <= k < before.len() ==> #[trigger] after[k] == before[k]);
        if some {
            assert(tells(procs, n - 1, after[before.len() as int]));
        }
        assert forall|i: int| 0 <= i < n && (#[trigger] procs[i]) is Some implies exists|k: int|
            0 <= k < after.len() && tells(procs, i, #[trigger] after[k]) by {
            if i < n - 1 {
                let k = choose|k: int|
                    0 <= k < before.len() && tells(procs, i, #[trigger] before[k]);
                assert(tells(procs, i, after[k]));
            }
        }
        assert forall|k: int| 0 <= k < after.len() implies tells_some(
            procs,
            k,
            n,
            #[trigger] after[k],
        ) by {
            if k < before.len() {
                assert(tells_some(procs, k, n - 1, before[k]));
                let i = choose|i: int| k <= i < n - 1 && #[trigger] tells(procs, i, before[k]);
                assert(tells(procs, i, after[k]));
            }
        }
        if forall|i: int| 0 <= i < n ==> (#[trigger] procs[i]) is Some {
            assert(procs[n - 1] is Some);
        }
    }
}

} // verus!
