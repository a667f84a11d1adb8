//! Every thread has a kernel stack of its own.
//!
//! A kernel stack is an allocation of the heap. As long as its thread exists it
//! stays allocated and shares no byte with the stack of any other thread, through
//! start, fork, trap and reaping; what a reaped thread leaves behind can be given
//! back to the heap.
use vstd::prelude::*;

use crate::boot;
use crate::boot::Start;
use crate::heap;
use crate::isolation;
use crate::kalloc;
use crate::kernel;
use crate::kernel::{Kernel, Program};
use crate::proc;
use crate::proc::{Process, KSTACK_SIZE};
use crate::riscv;
use crate::sv39;
use crate::syscall;
use crate::syscall::Action;
use crate::trap;
use crate::trap::{TrapAction, TrapFrame};
use crate::uproc;
use crate::user;
use crate::uvm;

verus! {

/// The kernel stack of the thread in slot `i`.
pub open spec fn stack_of(procs: Seq<Option<Process>>, i: int) -> int {
    proc::at(procs, i)->0.kstack as int
}

/// The payload at `s` is allocated.
pub open spec fn allocated(k: Kernel, s: int) -> bool {
    heap::live(k.vm.mem@, k.heap.blocks(), k.heap.start(), s)
}

/// The allocations at `s` and `t` have no byte in common.
pub open spec fn apart(k: Kernel, s: int, t: int) -> bool {
    heap::disjoint(heap::chunk(k.vm.mem@, s), heap::chunk(k.vm.mem@, t))
}

/// Every thread has a stack of its own.
pub open spec fn owned(k: Kernel) -> bool {
    let procs = k.sched.procs@;
    &&& forall|i: int|
        (#[trigger] proc::at(procs, i)) is Some ==> allocated(k, stack_of(procs, i))
    &&& forall|i: int, j: int|
        #![trigger proc::at(procs, i), proc::at(procs, j)]
        i != j && proc::at(procs, i) is Some && proc::at(procs, j) is Some ==> apart(
            k,
            stack_of(procs, i),
            stack_of(procs, j),
        )
}

/// The stack at `s` is allocated, and no thread's.
pub open spec fn spare(k: Kernel, s: int) -> bool {
    let procs = k.sched.procs@;
    &&& allocated(k, s)
    &&& forall|i: int|
        (#[trigger] proc::at(procs, i)) is Some ==> apart(k, stack_of(procs, i), s)
}

/// The heap is what it was: a change of memory above it does not reach it.
pub open spec fn heap_kept(k1: Kernel, k2: Kernel) -> bool {
    &&& k2.heap == k1.heap
    &&& forall|a: int| a < k1.vm.start() ==> #[trigger] k2.vm.mem@[a] == k1.vm.mem@[a]
}

/// An allocation stays one while the heap is kept.
proof fn lemma_still(k1: Kernel, k2: Kernel, s: int)
    requires
        k1.wf(),
        heap_kept(k1, k2),
        allocated(k1, s),
    ensures
        allocated(k2, s),
        heap::chunk(k2.vm.mem@, s) == heap::chunk(k1.vm.mem@, s),
{
    let c = heap::chunk(k1.vm.mem@, s);
    assert(heap::block_ok(c, k1.heap.start()));
    assert(k2.vm.mem@[s - 16] == k1.vm.mem@[s - 16]);
    assert(k2.vm.mem@[s - 8] == k1.vm.mem@[s - 8]);
}

/// No thread has another stack than it had, and no thread is new.
pub open spec fn same_stacks(procs1: Seq<Option<Process>>, procs2: Seq<Option<Process>>) -> bool {
    forall|i: int|
        (#[trigger] proc::at(procs2, i)) is Some ==> proc::at(procs1, i) is Some && stack_of(
            procs2,
            i,
        ) == stack_of(procs1, i)
}

/// Threads keep their stacks, whatever else becomes of them.
proof fn lemma_kept(k1: Kernel, k2: Kernel)
    requires
        k1.wf(),
        owned(k1),
        heap_kept(k1, k2),
        same_stacks(k1.sched.procs@, k2.sched.procs@),
    ensures
        owned(k2),
{
    let procs1 = k1.sched.procs@;
    let procs2 = k2.sched.procs@;
    assert forall|i: int| (#[trigger] proc::at(procs2, i)) is Some implies allocated(
        k2,
        stack_of(procs2, i),
    ) by {
        assert(proc::at(procs1, i) is Some);
        lemma_still(k1, k2, stack_of(procs1, i));
    }
    assert forall|i: int, j: int|
        #![trigger proc::at(procs2, i), proc::at(procs2, j)]
        i != j && proc::at(procs2, i) is Some && proc::at(procs2, j) is Some implies apart(
        k2,
        stack_of(procs2, i),
        stack_of(procs2, j),
    ) by {
        assert(proc::at(procs1, i) is Some && proc::at(procs1, j) is Some);
        lemma_still(k1, k2, stack_of(procs1, i));
        lemma_still(k1, k2, stack_of(procs1, j));
    }
}

/// A new thread on a spare stack.
proof fn lemma_grown(k1: Kernel, k2: Kernel, s: int)
    requires
        k1.wf(),
        owned(k1),
        spare(k1, s),
        heap_kept(k1, k2),
        proc::grew(k1.sched, k2.sched),
        stack_of(k2.sched.procs@, proc::new_slot(k1.sched.procs@)) == s,
    ensures
        owned(k2),
{
    let procs1 = k1.sched.procs@;
    let procs2 = k2.sched.procs@;
    let n = proc::new_slot(procs1);
    proc::lemma_first_free(procs1, 0);
    assert forall|i: int| i != n implies #[trigger] proc::at(procs2, i) == proc::at(procs1, i) by {}
    lemma_still(k1, k2, s);
    assert forall|i: int| (#[trigger] proc::at(procs2, i)) is Some implies allocated(
        k2,
        stack_of(procs2, i),
    ) by {
        if i != n {
            assert(proc::at(procs1, i) is Some);
            lemma_still(k1, k2, stack_of(procs1, i));
        }
    }
    assert forall|i: int, j: int|
        #![trigger proc::at(procs2, i), proc::at(procs2, j)]
        i != j && proc::at(procs2, i) is Some && proc::at(procs2, j) is Some implies apart(
        k2,
        stack_of(procs2, i),
        stack_of(procs2, j),
    ) by {
        if i != n {
            assert(proc::at(procs1, i) is Some);
            lemma_still(k1, k2, stack_of(procs1, i));
        }
        if j != n {
            assert(proc::at(procs1, j) is Some);
            lemma_still(k1, k2, stack_of(procs1, j));
        }
    }
}

/// What `kernel::new_kstack` does when it finds a block.
pub open spec fn stack_taken(k1: Kernel, k2: Kernel, s: int) -> bool {
    let blocks = k1.heap.blocks();
    let i = heap::first_fit(blocks, KSTACK_SIZE as int, 16, 0);
    let t = heap::taken(blocks[i], KSTACK_SIZE as int, 16);
    &&& kernel::heap_only(k1, k2)
    &&& i < blocks.len()
    &&& s == heap::user_at(blocks[i], 16)
    &&& k2.heap.blocks() == heap::carved(blocks, i, KSTACK_SIZE as int, 16)
    &&& allocated(k2, s)
    &&& heap::chunk(k2.vm.mem@, s) == (t.0, t.1 - t.0)
    &&& forall|a: int|
        !heap::in_free(blocks, a) ==> #[trigger] k2.vm.mem@[a] == k1.vm.mem@[a]
}

/// A stack fresh from the heap is nobody's, and takes nothing from anybody.
pub proof fn lemma_new_stack(k1: Kernel, k2: Kernel, s: int)
    requires
        k1.wf(),
        owned(k1),
        stack_taken(k1, k2, s),
    ensures
        owned(k2),
        spare(k2, s),
        forall|t: int| #[trigger] spare(k1, t) ==> spare(k2, t) && apart(k2, t, s),
{
    let procs = k1.sched.procs@;
    assert forall|i: int| (#[trigger] proc::at(procs, i)) is Some implies {
        &&& allocated(k2, stack_of(procs, i))
        &&& heap::chunk(k2.vm.mem@, stack_of(procs, i)) == heap::chunk(
            k1.vm.mem@,
            stack_of(procs, i),
        )
        &&& apart(k2, stack_of(procs, i), s)
    } by {
        lemma_other_taken(k1, k2, s, stack_of(procs, i));
    }
    assert forall|t: int| #[trigger] spare(k1, t) implies spare(k2, t) && apart(k2, t, s) by {
        lemma_other_taken(k1, k2, s, t);
        assert forall|i: int| (#[trigger] proc::at(procs, i)) is Some implies apart(
            k2,
            stack_of(procs, i),
            t,
        ) by {
            assert(apart(k1, stack_of(procs, i), t));
        }
    }
}

/// Taking a stack leaves another allocation alone.
proof fn lemma_other_taken(k1: Kernel, k2: Kernel, s: int, other: int)
    requires
        k1.wf(),
        stack_taken(k1, k2, s),
        allocated(k1, other),
    ensures
        allocated(k2, other),
        heap::chunk(k2.vm.mem@, other) == heap::chunk(k1.vm.mem@, other),
        apart(k2, other, s),
{
    let blocks = k1.heap.blocks();
    let need = KSTACK_SIZE as int;
    let i = heap::first_fit(blocks, need, 16, 0);
    assert(vstd::arithmetic::power2::is_pow2(16)) by {
        reveal_with_fuel(vstd::arithmetic::power2::is_pow2, 6);
    }
    heap::lemma_blocks(k1.heap, k1.vm.mem@);
    heap::lemma_first_fit(blocks, need, 16, 0);
    heap::lemma_alloc_live(
        k1.vm.mem@,
        k2.vm.mem@,
        blocks,
        k1.heap.start(),
        i,
        need,
        16,
        other,
    );
}

/// What `kernel::free_kstack` does.
pub open spec fn stack_freed(k1: Kernel, k2: Kernel, s: int) -> bool {
    let (start, size) = heap::chunk(k1.vm.mem@, s);
    let blocks = k1.heap.blocks();
    &&& kernel::heap_only(k1, k2)
    &&& k2.heap.blocks() == heap::merged(blocks, heap::position(blocks, start, 0), start, size)
    &&& forall|a: int|
        !heap::in_free(blocks, a) && !(start <= a < start + size) ==> #[trigger] k2.vm.mem@[a]
            == k1.vm.mem@[a]
}

/// Giving a spare stack back takes nothing from anybody.
pub proof fn lemma_freed_stack(k1: Kernel, k2: Kernel, s: int)
    requires
        k1.wf(),
        owned(k1),
        spare(k1, s),
        stack_freed(k1, k2, s),
    ensures
        owned(k2),
        forall|t: int| #[trigger] spare(k1, t) && apart(k1, s, t) ==> spare(k2, t),
{
    let procs = k1.sched.procs@;
    assert forall|i: int| (#[trigger] proc::at(procs, i)) is Some implies {
        &&& allocated(k2, stack_of(procs, i))
        &&& heap::chunk(k2.vm.mem@, stack_of(procs, i)) == heap::chunk(
            k1.vm.mem@,
            stack_of(procs, i),
        )
    } by {
        assert(apart(k1, stack_of(procs, i), s));
        lemma_other_freed(k1, k2, s, stack_of(procs, i));
    }
    assert forall|t: int| #[trigger] spare(k1, t) && apart(k1, s, t) implies spare(k2, t) by {
        lemma_other_freed(k1, k2, s, t);
        assert forall|i: int| (#[trigger] proc::at(procs, i)) is Some implies apart(
            k2,
            stack_of(procs, i),
            t,
        ) by {
            assert(apart(k1, stack_of(procs, i), t));
        }
    }
}

/// Giving a stack back leaves another allocation alone.
proof fn lemma_other_freed(k1: Kernel, k2: Kernel, s: int, other: int)
    requires
        k1.wf(),
        allocated(k1, s),
        allocated(k1, other),
        apart(k1, s, other),
        stack_freed(k1, k2, s),
    ensures
        allocated(k2, other),
        heap::chunk(k2.vm.mem@, other) == heap::chunk(k1.vm.mem@, other),
{
    heap::lemma_blocks(k1.heap, k1.vm.mem@);
    heap::lemma_dealloc_live(
        k1.vm.mem@,
        k2.vm.mem@,
        k1.heap.blocks(),
        k1.heap.start(),
        s,
        other,
    );
}

/// Pages of the allocator's lie above the heap.
proof fn lemma_above(k1: Kernel, k2: Kernel)
    requires
        k1.wf(),
        k2.heap == k1.heap,
        forall|a: int|
            !kalloc::managed(k1.vm.start(), sv39::page_of(a)) ==> #[trigger] k2.vm.mem@[a]
                == k1.vm.mem@[a],
    ensures
        heap_kept(k1, k2),
{
    assert forall|a: int| a < k1.vm.start() implies #[trigger] k2.vm.mem@[a] == k1.vm.mem@[a] by {
        assert(sv39::page_of(a) <= a) by {
            reveal(sv39::page_of);
        }
    }
}

/// A program started on a spare stack has that stack for itself.
pub proof fn lemma_start_stacks(
    k1: Kernel,
    k2: Kernel,
    name: &'static str,
    prog: Program,
    kstack: u64,
    pid: Option<u64>,
)
    requires
        k1.wf(),
        owned(k1),
        spare(k1, kstack as int),
        user::started(k1, k2, name, prog, kstack, pid),
    ensures
        owned(k2),
{
    if pid is Some {
        kalloc::lemma_pages(k1.vm.kmem, k1.vm.mem@);
        lemma_above(k1, k2);
        lemma_grown(k1, k2, kstack as int);
    } else {
        lemma_kept(k1, k2);
    }
}

/// The threads of the boot workload, started on spare stacks that lie apart, have
/// them for themselves.
pub proof fn lemma_workload_stacks(
    k1: Kernel,
    k2: Kernel,
    starts: Seq<Start>,
    stacks: Seq<u64>,
    n: int,
)
    requires
        k1.wf(),
        boot::undisturbed(k1, k2),
        forall|a: int|
            !k1.vm.kmem.pages().contains(sv39::page_of(a)) ==> #[trigger] k2.vm.mem@[a]
                == k1.vm.mem@[a],
        boot::all_ready(k2, starts, stacks, n),
        forall|i: int| 0 <= i < n ==> allocated(k1, #[trigger] stacks[i] as int),
        forall|i: int, j: int|
            #![trigger stacks[i], stacks[j]]
            0 <= i < n && 0 <= j < n && i != j ==> apart(k1, stacks[i] as int, stacks[j] as int),
    ensures
        owned(k2),
{
    let procs = k2.sched.procs@;
    kalloc::lemma_pages(k1.vm.kmem, k1.vm.mem@);
    lemma_above(k1, k2);
    assert forall|i: int| (#[trigger] proc::at(procs, i)) is Some implies 0 <= i < n && stack_of(
        procs,
        i,
    ) == stacks[i] && allocated(k2, stacks[i] as int) && heap::chunk(
        k2.vm.mem@,
        stacks[i] as int,
    ) == heap::chunk(k1.vm.mem@, stacks[i] as int) by {
        assert(procs[i] is Some);
        lemma_still(k1, k2, stacks[i] as int);
    }
}

/// The scheduler's reaping leaves the others their stacks, and those of the dead
/// are spare.
pub proof fn lemma_reap_stacks(k1: Kernel, k2: Kernel)
    requires
        k1.wf(),
        owned(k1),
        k2.heap == k1.heap,
        uproc::reaping(k1.vm, k2.vm, k1.sched.procs@, k1.sched.procs@.len() as int),
        same_stacks(
            uproc::reaped(k1.sched.procs@, k1.sched.procs@.len() as int),
            k2.sched.procs@,
        ),
    ensures
        owned(k2),
        forall|i: int| #[trigger]
            proc::in_state(k1.sched.procs@, i, proc::State::Zombie) ==> spare(
                k2,
                stack_of(k1.sched.procs@, i),
            ),
{
    let procs1 = k1.sched.procs@;
    let procs2 = k2.sched.procs@;
    let n = procs1.len() as int;
    let left = uproc::reaped(procs1, n);
    assert forall|a: int|
        !kalloc::managed(k1.vm.start(), sv39::page_of(a)) implies #[trigger] k2.vm.mem@[a]
        == k1.vm.mem@[a] by {
        let p = sv39::page_of(a);
        if uproc::dead_page(k1.vm.mem@, procs1, n, p) {
            let i = choose|i: int|
                #![trigger uproc::table_at(procs1, i)]
                0 <= i < n && proc::in_state(procs1, i, proc::State::Zombie) && uproc::table_at(
                    procs1,
                    i,
                ) >= 0 && uvm::owns(k1.vm.mem@, uproc::table_at(procs1, i), p);
            let t = uproc::table_at(procs1, i);
            uproc::lemma_table(k1.vm, procs1, i);
            uvm::lemma_owned(k1.vm.mem@, t, k1.vm.root as int, k1.vm.start(), p);
        }
    }
    lemma_above(k1, k2);
    assert forall|i: int| (#[trigger] proc::at(procs2, i)) is Some implies proc::at(procs1, i)
        is Some && stack_of(procs2, i) == stack_of(procs1, i) && !proc::in_state(
        procs1,
        i,
        proc::State::Zombie,
    ) by {
        assert(proc::at(left, i) is Some);
    }
    lemma_kept(k1, k2);
    assert forall|i: int| #[trigger]
        proc::in_state(procs1, i, proc::State::Zombie) implies spare(
        k2,
        stack_of(procs1, i),
    ) by {
        let s = stack_of(procs1, i);
        assert(proc::at(procs1, i) is Some);
        lemma_still(k1, k2, s);
        assert forall|j: int| (#[trigger] proc::at(procs2, j)) is Some implies apart(
            k2,
            stack_of(procs2, j),
            s,
        ) by {
            assert(proc::at(procs1, j) is Some);
            assert(i != j);
            lemma_still(k1, k2, stack_of(procs1, j));
        }
    }
}

/// A thread's stack does not depend on what it is doing.
proof fn lemma_moved_stacks(procs: Seq<Option<Process>>, c: int, st: proc::State)
    requires
        proc::at(procs, c) is Some,
    ensures
        same_stacks(procs, proc::moved(procs, c, st)),
{
}

proof fn lemma_woken_stacks(procs: Seq<Option<Process>>, chan: u64)
    ensures
        same_stacks(procs, proc::woken(procs, chan)),
{
}

/// The end of the thread in slot `c` leaves every stack where it is.
proof fn lemma_ended_stacks(procs: Seq<Option<Process>>, c: int)
    requires
        proc::at(procs, c) is Some,
    ensures
        same_stacks(
            procs,
            proc::woken(proc::moved(procs, c, proc::State::Zombie), proc::EXIT_CHAN),
        ),
{
    let gone = proc::moved(procs, c, proc::State::Zombie);
    let after = proc::woken(gone, proc::EXIT_CHAN);
    assert forall|i: int| (#[trigger] proc::at(after, i)) is Some implies proc::at(procs, i)
        is Some && stack_of(after, i) == stack_of(procs, i) by {
        assert(proc::at(gone, i) is Some);
    }
}

/// Who has which stack after a syscall: the one new thread there may be has the
/// stack it was given.
#[verifier::spinoff_prover]
#[verifier::rlimit(60)]
proof fn lemma_syscall_stacks(
    k1: Kernel,
    k2: Kernel,
    f1: TrapFrame,
    f2: TrapFrame,
    kstack: u64,
    act: Action,
)
    requires
        uproc::user_calls(k1.sched),
        syscall::dispatched(k1, k2, f1, f2, kstack, act),
    ensures
        k2.heap == k1.heap,
        same_stacks(k1.sched.procs@, k2.sched.procs@) || (f1.a7 == syscall::SYS_FORK && proc::grew(
            k1.sched,
            k2.sched,
        ) && stack_of(k2.sched.procs@, proc::new_slot(k1.sched.procs@)) == kstack),
{
    let procs = k1.sched.procs@;
    let c = k1.sched.current->0 as int;
    assert(proc::at(procs, c) == k1.sched.running());
    if f1.a7 == syscall::SYS_EXIT {
        lemma_ended_stacks(procs, c);
    } else if f1.a7 == syscall::SYS_YIELD {
        lemma_moved_stacks(procs, c, proc::State::Runnable);
    } else if f1.a7 == syscall::SYS_SLEEP_MS {
        lemma_moved_stacks(procs, c, proc::State::Sleeping(crate::timer::TICK_CHAN));
    } else if f1.a7 == syscall::SYS_READ {
        lemma_moved_stacks(procs, c, proc::State::Sleeping(k1.console.chan));
    } else if f1.a7 == syscall::SYS_WAIT {
        lemma_moved_stacks(procs, c, proc::State::Sleeping(proc::EXIT_CHAN));
    }
}

/// A trap taken while a process runs leaves every thread its stack; a forked
/// child has the spare one for itself.
#[verifier::spinoff_prover]
pub proof fn lemma_trap_stacks(
    k1: Kernel,
    k2: Kernel,
    f1: TrapFrame,
    f2: TrapFrame,
    cause: u64,
    stval: u64,
    time: u64,
    kstack: u64,
    act: TrapAction,
)
    requires
        k1.wf(),
        uproc::user_calls(k1.sched),
        owned(k1),
        f1.a7 == syscall::SYS_FORK ==> spare(k1, kstack as int),
        trap::trapped(k1, k2, f1, f2, cause, stval, time, kstack, act),
    ensures
        owned(k2),
{
    let procs = k1.sched.procs@;
    let c = k1.sched.current->0 as int;
    let root = syscall::caller_root(k1);
    assert(proc::at(procs, c) == k1.sched.running());
    assert(uproc::table_at(procs, c) == root);
    uproc::lemma_table(k1.vm, procs, c);
    isolation::lemma_trap_confined(k1, k2, f1, f2, cause, stval, time, kstack, act);
    kalloc::lemma_pages(k1.vm.kmem, k1.vm.mem@);
    assert forall|a: int|
        !kalloc::managed(k1.vm.start(), sv39::page_of(a)) implies #[trigger] k2.vm.mem@[a]
        == k1.vm.mem@[a] by {
        if uvm::owns(k1.vm.mem@, root, sv39::page_of(a)) {
            uvm::lemma_owned(
                k1.vm.mem@,
                root,
                k1.vm.root as int,
                k1.vm.start(),
                sv39::page_of(a),
            );
        }
    }
    let code = cause & !riscv::SCAUSE_INTERRUPT;
    if cause & riscv::SCAUSE_INTERRUPT != 0 && code == trap::IRQ_S_TIMER {
        let woken = proc::woken(procs, crate::timer::TICK_CHAN);
        lemma_woken_stacks(procs, crate::timer::TICK_CHAN);
        assert(proc::at(woken, c) is Some);
        lemma_moved_stacks(woken, c, proc::State::Runnable);
        lemma_above(k1, k2);
        lemma_kept(k1, k2);
    } else if cause & riscv::SCAUSE_INTERRUPT == 0 && code == trap::EXC_ECALL_USER {
        if let TrapAction::Syscall(a) = act {
            lemma_syscall_stacks(k1, k2, f1, f2, kstack, a);
        }
        lemma_above(k1, k2);
        if same_stacks(procs, k2.sched.procs@) {
            lemma_kept(k1, k2);
        } else {
            lemma_grown(k1, k2, kstack as int);
        }
    } else {
        lemma_ended_stacks(procs, c);
        lemma_above(k1, k2);
        lemma_kept(k1, k2);
    }
}

} // verus!
