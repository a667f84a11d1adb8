//! User processes: the address spaces of all of them, and the operations that
//! create, replace, copy, grow and reap one.
use vstd::prelude::*;

use crate::kalloc;
use crate::loader;
use crate::loader::{DATA_PERM, TEXT_MAX};
use crate::memlayout::DRAM_BASE;
use crate::proc;
use crate::proc::{
    Entry, Process, Scheduler, State, UserEntry, UserSpace, ERR, KSTACK_SIZE,
};
use crate::riscv;
use crate::riscv::Hart;
use crate::spinlock;
use crate::sv39;
use crate::sync;
use crate::trap::TrapFrame;
use crate::uvm;
use crate::uvm::{USER_HEAP_BASE, USER_HEAP_MAX, USER_STACK_TOP, USER_TEXT};
use crate::vm;
use crate::vm::Vm;

verus! {

// --- All address spaces ------------------------------------------------------

/// No page is private to both address spaces.
pub open spec fn apart(m: Map<int, u64>, t: int, u: int) -> bool {
    forall|p: int| #[trigger] uvm::owns(m, t, p) ==> !uvm::owns(m, u, p)
}

/// The address spaces `ts` (-1 for none) are sound, and no two of them share a
/// private page.
#[verifier::opaque]
pub open spec fn family(vm: Vm, ts: Map<int, int>) -> bool {
    &&& forall|i: int| (#[trigger] ts[i]) >= 0 ==> uvm::space(vm, ts[i])
    &&& forall|i: int, j: int|
        #![trigger ts[i], ts[j]]
        i != j && ts[i] >= 0 && ts[j] >= 0 ==> apart(vm.mem@, ts[i], ts[j])
}

/// A change that touches neither the private pages of `u` nor the kernel's
/// tables, and frees none of the former, leaves the address space alone.
pub proof fn lemma_space_keep(vm1: Vm, vm2: Vm, u: int)
    requires
        vm1.wf(),
        vm1.root != 0,
        uvm::space(vm1, u),
        vm2.image == vm1.image,
        vm2.root == vm1.root,
        forall|a: int|
            uvm::owns(vm1.mem@, u, sv39::page_of(a)) || !sv39::off_tables(
                vm1.mem@,
                vm1.root as int,
                sv39::page_of(a),
            ) ==> #[trigger] vm2.mem@[a] == vm1.mem@[a],
        forall|p: int| #[trigger]
            vm2.kmem.pages().contains(p) ==> !uvm::owns(vm1.mem@, u, p),
    ensures
        uvm::space(vm2, u),
        sv39::same_tree(vm1.mem@, vm2.mem@, u),
        forall|p: int| #[trigger]
            uvm::owns(vm2.mem@, u, p) <==> uvm::owns(vm1.mem@, u, p),
{
    uvm::lemma_user_keep(vm1.mem@, vm2.mem@, u, vm1.root as int, vm1.start());
}

/// A change confined to the pages of one address space and to free pages
/// leaves every other address space alone.
pub proof fn lemma_other_keep(vm1: Vm, vm2: Vm, t: int, u: int)
    requires
        vm1.wf(),
        vm1.root != 0,
        uvm::space(vm1, t),
        uvm::space(vm1, u),
        apart(vm1.mem@, t, u),
        vm2.image == vm1.image,
        vm2.root == vm1.root,
        forall|a: int|
            !uvm::owns(vm1.mem@, t, sv39::page_of(a)) && !vm1.kmem.pages().contains(
                sv39::page_of(a),
            ) ==> #[trigger] vm2.mem@[a] == vm1.mem@[a],
        forall|p: int| #[trigger]
            vm2.kmem.pages().contains(p) ==> vm1.kmem.pages().contains(p) || uvm::owns(
                vm1.mem@,
                t,
                p,
            ),
    ensures
        uvm::space(vm2, u),
        forall|p: int| #[trigger]
            uvm::owns(vm2.mem@, u, p) <==> uvm::owns(vm1.mem@, u, p),
{
    let m1 = vm1.mem@;
    let kr = vm1.root as int;
    assert forall|a: int|
        uvm::owns(m1, u, sv39::page_of(a)) || !sv39::off_tables(
            m1,
            kr,
            sv39::page_of(a),
        ) implies #[trigger] vm2.mem@[a] == m1[a] by {
        let p = sv39::page_of(a);
        if uvm::owns(m1, t, p) {
            uvm::lemma_owned(m1, t, kr, vm1.start(), p);
        }
        assert(!uvm::owns(m1, t, p));
        assert(!vm1.kmem.pages().contains(p));
    }
    assert forall|p: int| #[trigger] vm2.kmem.pages().contains(p) implies !uvm::owns(m1, u, p) by {
        if !vm1.kmem.pages().contains(p) {
            assert(uvm::owns(m1, t, p));
        }
    }
    lemma_space_keep(vm1, vm2, u);
}

/// A step of one address space keeps the family sound.
pub proof fn lemma_family_step(vm1: Vm, vm2: Vm, ts: Map<int, int>, c: int)
    requires
        vm1.wf(),
        vm1.root != 0,
        family(vm1, ts),
        ts[c] >= 0,
        vm2.image == vm1.image,
        vm2.root == vm1.root,
        uvm::space(vm2, ts[c]),
        forall|p: int| #[trigger]
            uvm::owns(vm2.mem@, ts[c], p) ==> uvm::owns(vm1.mem@, ts[c], p)
                || vm1.kmem.pages().contains(p),
        forall|p: int| #[trigger] vm2.kmem.pages().contains(p) ==> vm1.kmem.pages().contains(p),
        forall|a: int|
            !uvm::owns(vm1.mem@, ts[c], sv39::page_of(a)) && !vm1.kmem.pages().contains(
                sv39::page_of(a),
            ) ==> #[trigger] vm2.mem@[a] == vm1.mem@[a],
    ensures
        family(vm2, ts),
{
    reveal(family);
    let t = ts[c];
    assert forall|i: int| i != c && (#[trigger] ts[i]) >= 0 implies uvm::space(vm2, ts[i]) && (
    forall|p: int| #[trigger]
        uvm::owns(vm2.mem@, ts[i], p) <==> uvm::owns(vm1.mem@, ts[i], p)) by {
        assert(apart(vm1.mem@, t, ts[i]));
        lemma_other_keep(vm1, vm2, t, ts[i]);
    }
    assert forall|i: int, j: int|
        #![trigger ts[i], ts[j]]
        i != j && ts[i] >= 0 && ts[j] >= 0 implies apart(vm2.mem@, ts[i], ts[j]) by {
        assert(apart(vm1.mem@, ts[i], ts[j]));
        assert(uvm::space(vm1, ts[i]) && uvm::space(vm1, ts[j]));
        assert forall|p: int| #[trigger] uvm::owns(vm2.mem@, ts[i], p) implies !uvm::owns(
            vm2.mem@,
            ts[j],
            p,
        ) by {
            if i == c {
                if !uvm::owns(vm1.mem@, ts[i], p) {
                    assert(vm1.kmem.pages().contains(p));
                }
            } else if j == c {
                if uvm::owns(vm2.mem@, ts[j], p) && !uvm::owns(vm1.mem@, ts[j], p) {
                    assert(vm1.kmem.pages().contains(p));
                }
            }
        }
    }
}

/// A new address space made of free pages joins the family.
pub proof fn lemma_family_join(vm1: Vm, vm2: Vm, ts: Map<int, int>, c: int, t: int)
    requires
        vm1.wf(),
        vm1.root != 0,
        family(vm1, ts),
        ts[c] < 0,
        t >= 0,
        vm2.image == vm1.image,
        vm2.root == vm1.root,
        uvm::space(vm2, t),
        forall|p: int| #[trigger]
            uvm::owns(vm2.mem@, t, p) ==> vm1.kmem.pages().contains(p),
        forall|p: int| #[trigger] vm2.kmem.pages().contains(p) ==> vm1.kmem.pages().contains(p),
        forall|a: int|
            !vm1.kmem.pages().contains(sv39::page_of(a)) ==> #[trigger] vm2.mem@[a] == vm1.mem@[a],
    ensures
        family(vm2, ts.insert(c, t)),
{
    reveal(family);
    let ts2 = ts.insert(c, t);
    assert forall|i: int| i != c && (#[trigger] ts[i]) >= 0 implies uvm::space(vm2, ts[i]) && (
    forall|p: int| #[trigger]
        uvm::owns(vm2.mem@, ts[i], p) <==> uvm::owns(vm1.mem@, ts[i], p)) by {
        let u = ts[i];
        assert(uvm::space(vm1, u));
        assert forall|a: int|
            uvm::owns(vm1.mem@, u, sv39::page_of(a)) || !sv39::off_tables(
                vm1.mem@,
                vm1.root as int,
                sv39::page_of(a),
            ) implies #[trigger] vm2.mem@[a] == vm1.mem@[a] by {
            assert(!vm1.kmem.pages().contains(sv39::page_of(a)));
        }
        lemma_space_keep(vm1, vm2, u);
    }
    assert forall|i: int| (#[trigger] ts2[i]) >= 0 implies uvm::space(vm2, ts2[i]) by {
        if i != c {
            assert(ts2[i] == ts[i]);
        }
    }
    assert forall|i: int, j: int|
        #![trigger ts2[i], ts2[j]]
        i != j && ts2[i] >= 0 && ts2[j] >= 0 implies apart(vm2.mem@, ts2[i], ts2[j]) by {
        if i != c {
            assert(ts2[i] == ts[i] && uvm::space(vm1, ts[i]));
        }
        if j != c {
            assert(ts2[j] == ts[j] && uvm::space(vm1, ts[j]));
        }
        if i != c && j != c {
            assert(apart(vm1.mem@, ts[i], ts[j]));
        }
    }
}

/// An address space whose pages go back to the free list leaves the family.
pub proof fn lemma_family_leave(vm1: Vm, vm2: Vm, ts: Map<int, int>, c: int)
    requires
        vm1.wf(),
        vm1.root != 0,
        family(vm1, ts),
        ts[c] >= 0,
        vm2.image == vm1.image,
        vm2.root == vm1.root,
        forall|p: int| #[trigger]
            vm2.kmem.pages().contains(p) ==> vm1.kmem.pages().contains(p) || uvm::owns(
                vm1.mem@,
                ts[c],
                p,
            ),
        forall|a: int|
            !uvm::owns(vm1.mem@, ts[c], sv39::page_of(a)) ==> #[trigger] vm2.mem@[a]
                == vm1.mem@[a],
    ensures
        family(vm2, ts.insert(c, -1)),
{
    reveal(family);
    let t = ts[c];
    let ts2 = ts.insert(c, -1);
    assert forall|i: int| i != c && (#[trigger] ts[i]) >= 0 implies uvm::space(vm2, ts[i]) && (
    forall|p: int| #[trigger]
        uvm::owns(vm2.mem@, ts[i], p) <==> uvm::owns(vm1.mem@, ts[i], p)) by {
        assert(apart(vm1.mem@, t, ts[i]));
        lemma_other_keep(vm1, vm2, t, ts[i]);
    }
    assert forall|i: int| (#[trigger] ts2[i]) >= 0 implies uvm::space(vm2, ts2[i]) by {
        assert(i != c && ts2[i] == ts[i]);
    }
    assert forall|i: int, j: int|
        #![trigger ts2[i], ts2[j]]
        i != j && ts2[i] >= 0 && ts2[j] >= 0 implies apart(vm2.mem@, ts2[i], ts2[j]) by {
        assert(ts2[i] == ts[i] && ts2[j] == ts[j]);
        assert(apart(vm1.mem@, ts[i], ts[j]));
    }
}

/// A family is sound however its members are numbered.
pub proof fn lemma_family_move(vm: Vm, ts: Map<int, int>, from: int, to: int)
    requires
        family(vm, ts),
        from != to,
        ts[to] < 0,
    ensures
        family(vm, ts.insert(to, ts[from]).insert(from, -1)),
{
    reveal(family);
    let ts2 = ts.insert(to, ts[from]).insert(from, -1);
    assert forall|i: int| (#[trigger] ts2[i]) >= 0 implies uvm::space(vm, ts2[i]) by {
        if i == to {
            assert(ts2[i] == ts[from]);
        } else {
            assert(ts2[i] == ts[i]);
        }
    }
    assert forall|i: int, j: int|
        #![trigger ts2[i], ts2[j]]
        i != j && ts2[i] >= 0 && ts2[j] >= 0 implies apart(vm.mem@, ts2[i], ts2[j]) by {
        let a = if i == to {
            from
        } else {
            i
        };
        let b = if j == to {
            from
        } else {
            j
        };
        assert(ts2[i] == ts[a] && ts2[j] == ts[b]);
        assert(apart(vm.mem@, ts[a], ts[b]));
    }
}

/// The private table of the process in slot `i`, or -1.
pub open spec fn table_at(procs: Seq<Option<Process>>, i: int) -> int {
    match proc::at(procs, i) {
        Some(p) => match p.user_table {
            Some(t) => t as int,
            None => -1,
        },
        None => -1,
    }
}

/// The private tables of all processes.
pub open spec fn tables(procs: Seq<Option<Process>>) -> Map<int, int> {
    Map::total(|i: int| table_at(procs, i))
}

/// A process runs on its private table, if it has one, with its heap in the
/// heap region; a kernel thread runs on the kernel's table.
pub open spec fn process_ok(p: Process, root: u64) -> bool {
    match p.user_table {
        Some(t) => {
            &&& p.page_table == t
            &&& p.heap_base == USER_HEAP_BASE
            &&& p.heap_base <= p.heap_brk <= USER_HEAP_MAX
        },
        None => p.page_table == root,
    }
}

/// Every process has a sound address space of its own.
pub open spec fn spaces(vm: Vm, procs: Seq<Option<Process>>) -> bool {
    &&& vm.wf()
    &&& vm.root != 0
    &&& family(vm, tables(procs))
    &&& forall|i: int|
        (#[trigger] proc::at(procs, i)) matches Some(p) ==> process_ok(p, vm.root)
}

/// The address space of the process in slot `i`.
pub proof fn lemma_table(vm: Vm, procs: Seq<Option<Process>>, i: int)
    requires
        spaces(vm, procs),
        table_at(procs, i) >= 0,
    ensures
        uvm::space(vm, table_at(procs, i)),
        proc::at(procs, i)->0.page_table == table_at(procs, i),
{
    reveal(family);
    assert(tables(procs)[i] == table_at(procs, i));
}

/// A change below the page allocator's part of DRAM concerns neither the
/// allocator nor any page table.
pub proof fn lemma_low_keep(vm1: Vm, vm2: Vm)
    requires
        vm1.wf(),
        vm2.image == vm1.image,
        vm2.kmem == vm1.kmem,
        vm2.root == vm1.root,
        vm2.mem.wf(),
        forall|a: int| vm1.start() <= a ==> #[trigger] vm2.mem@[a] == vm1.mem@[a],
    ensures
        vm2.wf(),
{
    kalloc::lemma_pages(vm1.kmem, vm1.mem@);
    kalloc::lemma_frame(vm1.kmem, vm1.mem@, vm2.mem@);
    if vm1.root != 0 {
        assert forall|a: int|
            !sv39::off_tables(
                vm1.mem@,
                vm1.root as int,
                sv39::page_of(a),
            ) implies #[trigger] vm2.mem@[a] == vm1.mem@[a] by {
            lemma_table_high(vm1, a);
        }
        uvm::lemma_kernel_keep(vm1, vm2);
    }
}

/// The kernel's tables lie in the page allocator's part of DRAM.
proof fn lemma_table_high(vm: Vm, a: int)
    requires
        vm.wf(),
        vm.root != 0,
        !sv39::off_tables(vm.mem@, vm.root as int, sv39::page_of(a)),
    ensures
        vm.start() <= a,
{
    reveal(vm::tables_managed);
    let m = vm.mem@;
    let r = vm.root as int;
    let p = sv39::page_of(a);
    assert(p <= a && p % 4096 == 0) by {
        reveal(sv39::page_of);
    }
    if exists|i: int| sv39::root_idx(i) && #[trigger] sv39::l1(m, r, i) == p {
        let i = choose|i: int| sv39::root_idx(i) && #[trigger] sv39::l1(m, r, i) == p;
        sv39::lemma_l1(m, r, i);
        assert(sv39::l1(m, r, i) >= 0);
    } else if exists|g: int| sv39::group_idx(g) && #[trigger] sv39::l0(m, r, g) == p {
        let g = choose|g: int| sv39::group_idx(g) && #[trigger] sv39::l0(m, r, g) == p;
        sv39::lemma_l0(m, r, g);
        assert(sv39::l0(m, r, g) >= 0);
    }
}

/// A change below the page allocator's part of DRAM concerns no address space.
pub proof fn lemma_low_spaces(vm1: Vm, vm2: Vm, procs: Seq<Option<Process>>)
    requires
        spaces(vm1, procs),
        vm2.image == vm1.image,
        vm2.kmem == vm1.kmem,
        vm2.root == vm1.root,
        vm2.mem.wf(),
        forall|a: int| vm1.start() <= a ==> #[trigger] vm2.mem@[a] == vm1.mem@[a],
    ensures
        spaces(vm2, procs),
{
    lemma_low_keep(vm1, vm2);
    reveal(family);
    let ts = tables(procs);
    assert forall|i: int| (#[trigger] ts[i]) >= 0 implies uvm::space(vm2, ts[i]) by {
        lemma_low_space(vm1, vm2, ts[i]);
    }
    assert forall|i: int, j: int|
        #![trigger ts[i], ts[j]]
        i != j && ts[i] >= 0 && ts[j] >= 0 implies apart(vm2.mem@, ts[i], ts[j]) by {
        lemma_low_space(vm1, vm2, ts[i]);
        lemma_low_space(vm1, vm2, ts[j]);
        assert(apart(vm1.mem@, ts[i], ts[j]));
    }
}

proof fn lemma_low_space(vm1: Vm, vm2: Vm, u: int)
    requires
        vm1.wf(),
        vm1.root != 0,
        uvm::space(vm1, u),
        vm2.image == vm1.image,
        vm2.kmem == vm1.kmem,
        vm2.root == vm1.root,
        forall|a: int| vm1.start() <= a ==> #[trigger] vm2.mem@[a] == vm1.mem@[a],
    ensures
        uvm::space(vm2, u),
        forall|p: int| #[trigger]
            uvm::owns(vm2.mem@, u, p) <==> uvm::owns(vm1.mem@, u, p),
{
    assert forall|a: int|
        uvm::owns(vm1.mem@, u, sv39::page_of(a)) || !sv39::off_tables(
            vm1.mem@,
            vm1.root as int,
            sv39::page_of(a),
        ) implies #[trigger] vm2.mem@[a] == vm1.mem@[a] by {
        if uvm::owns(vm1.mem@, u, sv39::page_of(a)) {
            uvm::lemma_owned(vm1.mem@, u, vm1.root as int, vm1.start(), sv39::page_of(a));
            assert(sv39::page_of(a) <= a) by {
                reveal(sv39::page_of);
            }
        } else {
            lemma_table_high(vm1, a);
        }
    }
    lemma_space_keep(vm1, vm2, u);
}

/// Two address spaces have no private page in common.
pub proof fn lemma_apart(vm: Vm, procs: Seq<Option<Process>>, i: int, j: int)
    requires
        spaces(vm, procs),
        i != j,
        table_at(procs, i) >= 0,
        table_at(procs, j) >= 0,
    ensures
        apart(vm.mem@, table_at(procs, i), table_at(procs, j)),
{
    reveal(family);
    let ts = tables(procs);
    assert(ts[i] == table_at(procs, i) && ts[j] == table_at(procs, j));
}

/// A change of the slots that concerns no process's address space.
pub proof fn lemma_same_tables(
    vm: Vm,
    procs1: Seq<Option<Process>>,
    procs2: Seq<Option<Process>>,
)
    requires
        spaces(vm, procs1),
        forall|i: int| #[trigger] table_at(procs2, i) == table_at(procs1, i),
        forall|i: int|
            (#[trigger] proc::at(procs2, i)) matches Some(p) ==> process_ok(p, vm.root),
    ensures
        spaces(vm, procs2),
{
    assert(tables(procs2) =~= tables(procs1));
}

// --- Starting a process ------------------------------------------------------

/// `p` is a new process that will enter the program loaded into `table`, with
/// an empty heap and no open file.
pub open spec fn user_proc(
    p: Process,
    pid: u64,
    name: &'static str,
    kstack: u64,
    table: u64,
    trampoline: u64,
) -> bool {
    &&& p.pid == pid
    &&& p.name == name
    &&& p.state == State::Runnable
    &&& p.context.ra == trampoline
    &&& p.context.sp == proc::stack_top(kstack)
    &&& forall|i: int| 0 <= i < 12 ==> #[trigger] p.context.s@[i] == 0
    &&& p.entry == Entry::User
    &&& p.kstack == kstack
    &&& p.kstack_top == proc::stack_top(kstack)
    &&& p.user_entry == USER_TEXT
    &&& p.user_sp == USER_STACK_TOP
    &&& p.page_table == table
    &&& p.user_table == Some(table)
    &&& p.heap_base == USER_HEAP_BASE
    &&& p.heap_brk == USER_HEAP_BASE
    &&& forall|i: int| 0 <= i < 8 ==> #[trigger] p.fds@[i] is None
    &&& p.fork_frame is None
}

/// The program image of `len` bytes at `src` can be loaded: it is not empty,
/// fits below the stack, lies in kernel memory, and there are pages enough.
pub open spec fn loadable(vm: Vm, src: u64, len: u64) -> bool {
    &&& 0 < len <= TEXT_MAX
    &&& DRAM_BASE <= src
    &&& src + len <= vm.start()
    &&& loader::image_pages(len as int) <= vm.kmem.pages().len()
}

/// A new process with a table of its own joins the others.
proof fn lemma_spawned(vm1: Vm, vm2: Vm, s1: Scheduler, s2: Scheduler, t: u64)
    requires
        s1.wf(),
        spaces(vm1, s1.procs@),
        proc::grew(s1, s2),
        proc::at(s1.procs@, proc::new_slot(s1.procs@)) is None,
        proc::at(s2.procs@, proc::new_slot(s1.procs@)) matches Some(p) && p.user_table == Some(t)
            && process_ok(p, vm1.root),
        vm2.wf(),
        vm2.image == vm1.image,
        vm2.root == vm1.root,
        uvm::space(vm2, t as int),
        forall|p: int| #[trigger]
            uvm::owns(vm2.mem@, t as int, p) ==> vm1.kmem.pages().contains(p),
        forall|p: int| #[trigger] vm2.kmem.pages().contains(p) ==> vm1.kmem.pages().contains(p),
        forall|a: int|
            !vm1.kmem.pages().contains(sv39::page_of(a)) ==> #[trigger] vm2.mem@[a] == vm1.mem@[a],
    ensures
        spaces(vm2, s2.procs@),
{
    let n = proc::new_slot(s1.procs@);
    let ts = tables(s1.procs@);
    proc::lemma_first_free(s1.procs@, 0);
    assert(ts[n] == -1);
    lemma_family_join(vm1, vm2, ts, n, t as int);
    assert(tables(s2.procs@) =~= ts.insert(n, t as int)) by {
        assert forall|i: int| #[trigger] table_at(s2.procs@, i) == ts.insert(n, t as int)[i] by {
            if i != n {
                assert(proc::at(s2.procs@, i) == proc::at(s1.procs@, i));
            }
        }
    }
    assert forall|i: int| (#[trigger] proc::at(s2.procs@, i)) is Some implies process_ok(
        proc::at(s2.procs@, i)->0,
        vm2.root,
    ) by {
        if i != n {
            assert(proc::at(s2.procs@, i) == proc::at(s1.procs@, i));
        }
    }
}

/// Load a user program into a fresh address space and start it. Returns the
/// new pid.
pub fn spawn_user(
    s: &mut Scheduler,
    hart: &mut Hart,
    vm: &mut Vm,
    name: &'static str,
    src: u64,
    len: u64,
    kstack: u64,
) -> (pid: u64)
    requires
        old(s).wf(),
        spaces(*old(vm), old(s).procs@),
        loadable(*old(vm), src, len),
        old(s).next_pid < u64::MAX,
        old(hart).noff < u64::MAX,
        spinlock::hart_ok(*old(hart)),
        kstack + KSTACK_SIZE <= u64::MAX,
    ensures
        final(s).wf(),
        spaces(*final(vm), final(s).procs@),
        pid == old(s).next_pid,
        proc::grew(*old(s), *final(s)),
        ({
            let t = old(vm).kmem.pages()[0];
            &&& user_proc(
                proc::at(final(s).procs@, proc::new_slot(old(s).procs@))->0,
                pid,
                name,
                kstack,
                t as u64,
                old(s).trampoline,
            )
            &&& loader::loaded(old(vm).mem@, final(vm).mem@, t, src as int, len as int)
            &&& forall|p: int| #[trigger]
                uvm::owns(final(vm).mem@, t, p) <==> old(vm).kmem.pages().contains(p) && !final(vm).kmem.pages().contains(p)
        }),
        final(vm).image == old(vm).image,
        final(vm).root == old(vm).root,
        forall|p: int| #[trigger]
            final(vm).kmem.pages().contains(p) ==> old(vm).kmem.pages().contains(p),
        final(vm).kmem.pages().len() == old(vm).kmem.pages().len() - loader::image_pages(
            len as int,
        ),
        forall|a: int|
            !old(vm).kmem.pages().contains(sv39::page_of(a)) ==> #[trigger] final(vm).mem@[a]
                == old(vm).mem@[a],
        *final(hart) == proc::section(*old(hart)),
        spinlock::hart_ok(*final(hart)),
{
    let ghost vm0 = *vm;
    let ghost s0 = *s;
    let table: u64 = loader::load_user_image(vm, src, len);
    let user: UserSpace = UserSpace {
        table,
        entry: USER_TEXT,
        sp: USER_STACK_TOP,
        heap_base: USER_HEAP_BASE,
        heap_brk: USER_HEAP_BASE,
        fds: [None; 8],
        fork_frame: None,
    };
    let pid: u64 = proc::spawn_with(s, hart, name, Entry::User, kstack, vm.root, Some(user));
    proof {
        lemma_spawned(vm0, *vm, s0, *s, table);
    }
    pid
}

// --- Replacing a program -----------------------------------------------------

/// The process `p` once it runs the program loaded into `t`. Open files are
/// preserved.
pub open spec fn after_exec(p: Process, t: u64) -> Process {
    Process {
        page_table: t,
        user_table: Some(t),
        user_entry: USER_TEXT,
        user_sp: USER_STACK_TOP,
        heap_base: USER_HEAP_BASE,
        heap_brk: USER_HEAP_BASE,
        fork_frame: None,
        ..p
    }
}

/// The processes are sound once the one in slot `c` has moved to the new table
/// and its old one, if any, is freed.
proof fn lemma_execed(
    vm1: Vm,
    vm2: Vm,
    vm3: Vm,
    procs1: Seq<Option<Process>>,
    procs2: Seq<Option<Process>>,
    c: int,
    t: u64,
)
    requires
        spaces(vm1, procs1),
        proc::at(procs1, c) is Some,
        procs2 == procs1.update(c, Some(after_exec(proc::at(procs1, c)->0, t))),
        vm2.wf(),
        vm2.image == vm1.image,
        vm2.root == vm1.root,
        uvm::space(vm2, t as int),
        forall|p: int| #[trigger]
            uvm::owns(vm2.mem@, t as int, p) ==> vm1.kmem.pages().contains(p),
        forall|p: int| #[trigger] vm2.kmem.pages().contains(p) ==> vm1.kmem.pages().contains(p),
        forall|a: int|
            !vm1.kmem.pages().contains(sv39::page_of(a)) ==> #[trigger] vm2.mem@[a] == vm1.mem@[a],
        vm3.wf(),
        vm3.image == vm1.image,
        vm3.root == vm1.root,
        ({
            let old_t = table_at(procs1, c);
            if old_t >= 0 {
                &&& forall|p: int| #[trigger]
                    vm3.kmem.pages().contains(p) ==> vm2.kmem.pages().contains(p) || uvm::owns(
                        vm2.mem@,
                        old_t,
                        p,
                    )
                &&& forall|a: int|
                    !uvm::owns(vm2.mem@, old_t, sv39::page_of(a)) ==> #[trigger] vm3.mem@[a]
                        == vm2.mem@[a]
            } else {
                vm3 == vm2
            }
        }),
    ensures
        spaces(vm3, procs2),
{
    let ts = tables(procs1);
    // The new table is nobody's until the process has moved to it.
    assert(ts[-1] == -1);
    lemma_family_join(vm1, vm2, ts, -1, t as int);
    let ts2 = ts.insert(-1, t as int);
    assert(ts2[c] == table_at(procs1, c));
    let ts3 = ts2.insert(c, -1);
    if table_at(procs1, c) >= 0 {
        lemma_family_leave(vm2, vm3, ts2, c);
    } else {
        assert(ts3 =~= ts2);
    }
    lemma_family_move(vm3, ts3, -1, c);
    let ts4 = ts3.insert(c, t as int).insert(-1, -1);
    assert(tables(procs2) =~= ts4) by {
        assert forall|i: int| #[trigger] table_at(procs2, i) == ts4[i] by {
            if i != c {
                assert(proc::at(procs2, i) == proc::at(procs1, i));
            }
        }
    }
    assert forall|i: int| (#[trigger] proc::at(procs2, i)) is Some implies process_ok(
        proc::at(procs2, i)->0,
        vm3.root,
    ) by {
        if i != c {
            assert(proc::at(procs2, i) == proc::at(procs1, i));
        }
    }
}

/// The old address space is still sound once the new one is built.
pub proof fn lemma_old_space(vm1: Vm, vm2: Vm, u: int)
    requires
        vm1.wf(),
        vm1.root != 0,
        uvm::space(vm1, u),
        vm2.image == vm1.image,
        vm2.root == vm1.root,
        forall|p: int| #[trigger] vm2.kmem.pages().contains(p) ==> vm1.kmem.pages().contains(p),
        forall|a: int|
            !vm1.kmem.pages().contains(sv39::page_of(a)) ==> #[trigger] vm2.mem@[a] == vm1.mem@[a],
    ensures
        uvm::space(vm2, u),
        forall|p: int| #[trigger]
            uvm::owns(vm2.mem@, u, p) <==> uvm::owns(vm1.mem@, u, p),
{
    assert forall|a: int|
        uvm::owns(vm1.mem@, u, sv39::page_of(a)) || !sv39::off_tables(
            vm1.mem@,
            vm1.root as int,
            sv39::page_of(a),
        ) implies #[trigger] vm2.mem@[a] == vm1.mem@[a] by {
        assert(!vm1.kmem.pages().contains(sv39::page_of(a)));
    }
    lemma_space_keep(vm1, vm2, u);
}

/// Replace the calling process's image with the program of `len` bytes at
/// `src`: build a fresh address space, commit to it with interrupts off,
/// discard the old one (now unreachable), and enter the new program at
/// `USER_TEXT`. Open files are preserved. The caller flushes the TLB around the
/// new `satp` and returns to user mode.
#[verifier::rlimit(60)]
pub fn exec(s: &mut Scheduler, hart: &mut Hart, vm: &mut Vm, src: u64, len: u64) -> (e: UserEntry)
    requires
        old(s).wf(),
        spaces(*old(vm), old(s).procs@),
        old(s).running() is Some,
        loadable(*old(vm), src, len),
        old(hart).noff < u64::MAX,
        spinlock::hart_ok(*old(hart)),
    ensures
        final(s).wf(),
        spaces(*final(vm), final(s).procs@),
        ({
            let c = old(s).current->0 as int;
            let p = old(s).running()->0;
            let t = old(vm).kmem.pages()[0];
            let old_t = table_at(old(s).procs@, c);
            &&& proc::replaced(*old(s), *final(s), c, after_exec(p, t as u64))
            &&& loader::loaded(old(vm).mem@, final(vm).mem@, t, src as int, len as int)
            &&& forall|q: int| #[trigger]
                uvm::owns(final(vm).mem@, t, q) ==> old(vm).kmem.pages().contains(q)
            &&& forall|q: int| #[trigger]
                final(vm).kmem.pages().contains(q) <==> (old(vm).kmem.pages().contains(q)
                    && !uvm::owns(final(vm).mem@, t, q)) || (old_t >= 0 && uvm::owns(
                    old(vm).mem@,
                    old_t,
                    q,
                ))
            &&& forall|a: int|
                !old(vm).kmem.pages().contains(sv39::page_of(a)) && !(old_t >= 0 && uvm::owns(
                    old(vm).mem@,
                    old_t,
                    sv39::page_of(a),
                )) ==> #[trigger] final(vm).mem@[a] == old(vm).mem@[a]
            &&& e == (UserEntry { sp: USER_STACK_TOP })
            &&& *final(hart) == (Hart {
                satp: vm::satp_of(t as u64),
                sepc: USER_TEXT,
                sscratch: p.kstack_top,
                sstatus: proc::user_sstatus(riscv::without_sie(old(hart).sstatus)),
                ..proc::section(*old(hart))
            })
        }),
        final(vm).image == old(vm).image,
        final(vm).root == old(vm).root,
{
    let ghost vm0 = *vm;
    let ghost s0 = *s;
    let ghost hart0 = *hart;
    let new_table: u64 = loader::load_user_image(vm, src, len);
    let ghost vm1 = *vm;
    proof {
        spinlock::lemma_push_pop(hart0);
        kalloc::lemma_pages(vm0.kmem, vm0.mem@);
        assert(vm0.kmem.pages().contains(vm0.kmem.pages()[0]));
    }
    spinlock::push_off(hart);
    let cur: usize = proc::current_slot(s, hart).unwrap();
    let mut p: Process = proc::slot(s, hart, cur).unwrap();
    let old_table: Option<u64> = p.user_table;
    p.page_table = new_table;
    p.user_table = Some(new_table);
    p.user_entry = USER_TEXT;
    p.user_sp = USER_STACK_TOP;
    p.heap_base = USER_HEAP_BASE;
    p.heap_brk = USER_HEAP_BASE;
    p.fork_frame = None;
    proc::set_slot(s, hart, cur, Some(p));
    proof {
        proc::lemma_changed(s0, *s, cur as int);
    }
    spinlock::pop_off(hart);
    // Commit to the new address space with interrupts off, then discard the
    // old one. The kernel map is in both tables, so kernel code and stack stay
    // addressable throughout.
    riscv::intr_off(hart);
    hart.satp = vm::switch_to(new_table);
    if let Some(old) = old_table {
        proof {
            assert(table_at(s0.procs@, cur as int) == old);
            lemma_table(vm0, s0.procs@, cur as int);
            lemma_old_space(vm0, vm1, old as int);
            lemma_new_table(vm0, old, new_table);
        }
        uvm::free_user_table(vm, hart, old);
        proof {
            lemma_new_kept(vm0, vm1, *vm, src as int, len as int, new_table as int, old as int);
        }
    }
    proof {
        lemma_execed(vm0, vm1, *vm, s0.procs@, s.procs@, cur as int, new_table);
    }
    proc::enter_user(hart, USER_TEXT, USER_STACK_TOP, p.kstack_top)
}

/// With an address space active whose root was a free page, none that was there
/// before is.
proof fn lemma_new_table(vm: Vm, old_t: u64, t: u64)
    requires
        vm.wf(),
        uvm::space(vm, old_t as int),
        vm.kmem.pages().contains(t as int),
    ensures
        vm::satp_of(t) != vm::satp_of(old_t),
{
    kalloc::lemma_pages(vm.kmem, vm.mem@);
    uvm::lemma_shared(vm.mem@, old_t as int, vm.root as int, vm.start());
    vm::lemma_satp(t, old_t);
}

/// Freeing the old address space does not disturb the new one.
proof fn lemma_new_kept(vm0: Vm, vm1: Vm, vm2: Vm, src: int, len: int, t: int, old_t: int)
    requires
        vm1.wf(),
        vm1.root != 0,
        uvm::space(vm1, t),
        uvm::space(vm0, old_t),
        0 < len <= TEXT_MAX,
        forall|p: int| #[trigger]
            uvm::owns(vm1.mem@, t, p) ==> vm0.kmem.pages().contains(p),
        forall|p: int| #[trigger]
            uvm::owns(vm1.mem@, old_t, p) <==> uvm::owns(vm0.mem@, old_t, p),
        uvm::user_table(vm1.mem@, old_t, vm1.root as int, vm1.start()),
        vm2.image == vm1.image,
        vm2.root == vm1.root,
        loader::loaded(vm0.mem@, vm1.mem@, t, src, len),
        forall|p: int| #[trigger]
            vm2.kmem.pages().contains(p) <==> vm1.kmem.pages().contains(p) || uvm::owns(
                vm1.mem@,
                old_t,
                p,
            ),
        forall|a: int|
            !uvm::owns(vm1.mem@, old_t, sv39::page_of(a)) ==> #[trigger] vm2.mem@[a]
                == vm1.mem@[a],
    ensures
        loader::loaded(vm0.mem@, vm2.mem@, t, src, len),
        forall|p: int| #[trigger]
            uvm::owns(vm2.mem@, t, p) <==> uvm::owns(vm1.mem@, t, p),
{
    let m1 = vm1.mem@;
    let m2 = vm2.mem@;
    assert forall|a: int|
        uvm::owns(m1, t, sv39::page_of(a)) || !sv39::off_tables(
            m1,
            vm1.root as int,
            sv39::page_of(a),
        ) implies #[trigger] m2[a] == m1[a] by {
        let p = sv39::page_of(a);
        if uvm::owns(m1, old_t, p) {
            uvm::lemma_owned(m1, old_t, vm1.root as int, vm1.start(), p);
            assert(vm0.kmem.pages().contains(p));
        }
    }
    assert forall|p: int| #[trigger] vm2.kmem.pages().contains(p) implies !uvm::owns(m1, t, p) by {
        if uvm::owns(m1, old_t, p) && uvm::owns(m1, t, p) {
            assert(vm0.kmem.pages().contains(p));
        }
    }
    lemma_space_keep(vm1, vm2, t);
    loader::lemma_loaded_keep(vm0.mem@, m1, m2, t, vm1.root as int, vm1.start(), src, len);
}

// --- Copying a process -------------------------------------------------------

/// The user side of a forked child: a copy of the parent's, resuming where the
/// parent called fork, except that there fork returns 0.
pub open spec fn child_space(p: Process, table: u64, frame: TrapFrame) -> UserSpace {
    UserSpace {
        table,
        entry: frame.sepc,
        sp: frame.sp,
        heap_base: p.heap_base,
        heap_brk: p.heap_brk,
        fds: p.fds,
        fork_frame: Some(TrapFrame { a0: 0, ..frame }),
    }
}

/// Does a user process make the call?
pub open spec fn user_calls(s: Scheduler) -> bool {
    s.running() matches Some(p) && p.user_table is Some
}

/// Duplicate the calling process: clone its address space, heap bounds and
/// open files into a child that returns 0 from fork, while the parent gets the
/// child's pid. `frame` is the parent's saved register state at the fork ecall.
/// A kernel thread cannot fork and gets [`ERR`].
#[verifier::rlimit(60)]
pub fn fork(
    s: &mut Scheduler,
    hart: &mut Hart,
    vm: &mut Vm,
    frame: &TrapFrame,
    kstack: u64,
) -> (pid: u64)
    requires
        old(s).wf(),
        spaces(*old(vm), old(s).procs@),
        old(s).next_pid < u64::MAX,
        old(hart).noff < u64::MAX,
        spinlock::hart_ok(*old(hart)),
        kstack + KSTACK_SIZE <= u64::MAX,
        user_calls(*old(s)) ==> uvm::clone_pages(
            old(vm).mem@,
            old(s).running()->0.page_table as int,
        ) <= old(vm).kmem.pages().len(),
    ensures
        final(s).wf(),
        spaces(*final(vm), final(s).procs@),
        final(vm).image == old(vm).image,
        final(vm).root == old(vm).root,
        sync::calm(*old(hart), *final(hart)),
        if user_calls(*old(s)) {
            let p = old(s).running()->0;
            let t = old(vm).kmem.pages()[0];
            &&& pid == old(s).next_pid
            &&& proc::grew(*old(s), *final(s))
            &&& proc::fresh_user(
                proc::at(final(s).procs@, proc::new_slot(old(s).procs@))->0,
                pid,
                "u-fork-child",
                Entry::Forked,
                kstack,
                child_space(p, t as u64, *frame),
                old(s).trampoline,
            )
            &&& forall|vp: int|
                uvm::user_page(vp) ==> #[trigger] uvm::cloned(
                    old(vm).mem@,
                    p.page_table as int,
                    final(vm).mem@,
                    t,
                    vp,
                )
            &&& forall|q: int| #[trigger]
                uvm::owns(final(vm).mem@, t, q) <==> old(vm).kmem.pages().contains(q)
                    && !final(vm).kmem.pages().contains(q)
            &&& forall|q: int| #[trigger]
                final(vm).kmem.pages().contains(q) ==> old(vm).kmem.pages().contains(q)
            &&& final(vm).kmem.pages().len() + uvm::clone_pages(
                old(vm).mem@,
                p.page_table as int,
            ) == old(vm).kmem.pages().len()
            &&& forall|a: int|
                !old(vm).kmem.pages().contains(sv39::page_of(a)) ==> #[trigger] final(vm).mem@[a]
                    == old(vm).mem@[a]
        } else {
            &&& pid == ERR
            &&& *final(s) == *old(s)
            &&& *final(vm) == *old(vm)
        },
{
    let ghost vm0 = *vm;
    let ghost s0 = *s;
    proof {
        spinlock::lemma_push_pop(*hart);
    }
    let cur: Option<Process> = proc::current_process(s, hart);
    if cur.is_none() {
        return ERR;
    }
    let p: Process = cur.unwrap();
    if p.user_table.is_none() {
        return ERR;
    }
    let ghost c = s0.current->0;
    proof {
        assert(proc::at(s0.procs@, c as int) == Some(p));
        assert(table_at(s0.procs@, c as int) == p.page_table);
        lemma_table(vm0, s0.procs@, c as int);
    }
    let child_table: u64 = uvm::clone_user_table(vm, p.page_table);
    // The child resumes at the same pc with the same registers, except fork
    // returns 0 in the child.
    let mut child_frame: TrapFrame = *frame;
    child_frame.a0 = 0;
    let user: UserSpace = UserSpace {
        table: child_table,
        entry: frame.sepc,
        sp: frame.sp,
        heap_base: p.heap_base,
        heap_brk: p.heap_brk,
        fds: p.fds,
        fork_frame: Some(child_frame),
    };
    proof {
        spinlock::lemma_push_pop(*hart);
    }
    let pid: u64 = proc::spawn_with(
        s,
        hart,
        "u-fork-child",
        Entry::Forked,
        kstack,
        vm.root,
        Some(user),
    );
    proof {
        lemma_spawned(vm0, *vm, s0, *s, child_table);
    }
    pid
}

// --- Growing a process -------------------------------------------------------

/// May a fault at `addr` be served: is it in the heap of the calling process,
/// on a page that is not mapped yet, with a page left to map?
pub open spec fn servable(vm: Vm, s: Scheduler, addr: u64) -> bool {
    &&& s.running() matches Some(p) && p.heap_base <= addr < p.heap_brk && uvm::frame(
        vm.mem@,
        p.page_table as int,
        addr as int / 4096,
    ) < 0
    &&& vm.kmem.pages().len() > 0
}

/// Try to service a user page fault at `addr` by demand-mapping a heap page.
/// Returns true if a page was mapped (the faulting instruction should be
/// retried, after a TLB flush); false if the fault is not a growable-heap
/// access, or memory has run out, and the process should be killed.
#[verifier::rlimit(60)]
pub fn service_page_fault(s: &Scheduler, hart: &mut Hart, vm: &mut Vm, addr: u64) -> (served: bool)
    requires
        s.wf(),
        spaces(*old(vm), s.procs@),
        old(hart).noff < u64::MAX,
        spinlock::hart_ok(*old(hart)),
        s.running() matches Some(p) && p.heap_base <= addr < p.heap_brk ==> user_calls(*s),
    ensures
        spaces(*final(vm), s.procs@),
        *final(hart) == proc::section(*old(hart)),
        spinlock::hart_ok(*final(hart)),
        final(vm).image == old(vm).image,
        final(vm).root == old(vm).root,
        served == (servable(*old(vm), *s, addr) && 1 + vm::missing(
            old(vm).mem@,
            s.running()->0.page_table as int,
            addr as int / 4096,
        ) <= old(vm).kmem.pages().len()),
        if served {
            let f = old(vm).kmem.pages()[0];
            &&& uvm::page_added(
                *old(vm),
                *final(vm),
                s.running()->0.page_table as int,
                addr as int / 4096,
                f as u64,
                DATA_PERM,
            )
            &&& forall|k: int|
                0 <= k < 4096 && k % 8 == 0 ==> #[trigger] final(vm).mem@[f + k] == 0
        } else {
            *final(vm) == *old(vm)
        },
{
    let ghost vm0 = *vm;
    let ghost c = s.current->0;
    match proc::current_process(s, hart) {
        Some(p) => {
            if addr < p.heap_base || addr >= p.heap_brk {
                return false;
            }
            let page_va: u64 = addr & !0xfffu64;
            let ghost t = p.page_table as int;
            let ghost vp = addr as int / 4096;
            proof {
                assert(addr & !0xfffu64 == addr - addr % 4096) by (bit_vector);
                assert(page_va as int / 4096 == vp && page_va % 4096 == 0);
                assert(proc::at(s.procs@, c as int) == Some(p));
                assert(table_at(s.procs@, c as int) == t);
                lemma_table(vm0, s.procs@, c as int);
                uvm::lemma_shared(vm0.mem@, t, vm0.root as int, vm0.start());
                assert(uvm::user_page(vp));
            }
            // A mapped page faulting here would be a permission error, not a
            // missing page: don't paper over it.
            if vm::translate(&vm.mem, p.page_table, page_va).is_some() {
                return false;
            }
            // Out of memory, for the page or for a table on the way to it: let
            // the process die.
            let missing: u64 = vm::missing_tables(&vm.mem, p.page_table, page_va);
            if kalloc::free_pages(&vm.kmem, &vm.mem) <= missing {
                return false;
            }
            proof {
                loader::lemma_perms();
            }
            let f: u64 = uvm::take_page(vm, Ghost(t));
            let ghost m1 = vm.mem@;
            uvm::map_taken(vm, p.page_table, page_va, f, DATA_PERM, Ghost(vm0));
            proof {
                assert forall|k: int| 0 <= k < 4096 && k % 8 == 0 implies #[trigger] vm.mem@[f + k]
                    == 0 by {
                    assert(vm.mem@[f + k] == m1[f + k]);
                }
                lemma_added_step(vm0, *vm, s.procs@, c as int, vp, f);
            }
            true
        },
        None => false,
    }
}

/// A page added to one process's address space concerns no other.
proof fn lemma_added_step(
    vm1: Vm,
    vm2: Vm,
    procs: Seq<Option<Process>>,
    c: int,
    vp: int,
    f: u64,
)
    requires
        spaces(vm1, procs),
        table_at(procs, c) >= 0,
        uvm::page_added(vm1, vm2, table_at(procs, c), vp, f, DATA_PERM),
    ensures
        spaces(vm2, procs),
{
    let t = table_at(procs, c);
    let n = 1 + vm::missing(vm1.mem@, t, vp);
    assert(tables(procs)[c] == t);
    let rest = vm2.kmem.pages();
    assert forall|p: int| #[trigger] rest.contains(p) implies vm1.kmem.pages().contains(p) by {
        let k = rest.index_of(p);
        assert(vm1.kmem.pages()[k + n] == p);
    }
    lemma_family_step(vm1, vm2, tables(procs), c);
}

// --- The scheduler -----------------------------------------------------------

/// The slots without the zombies among the first `n`.
pub open spec fn reaped(procs: Seq<Option<Process>>, n: int) -> Seq<Option<Process>> {
    Seq::new(
        procs.len(),
        |i: int|
            if i < n && proc::in_state(procs, i, State::Zombie) {
                None
            } else {
                procs[i]
            },
    )
}

/// The kernel stacks of the zombies among the first `n` slots.
pub open spec fn dead_stacks(procs: Seq<Option<Process>>, n: int) -> Seq<u64>
    decreases n,
{
    if n <= 0 {
        Seq::empty()
    } else if proc::in_state(procs, n - 1, State::Zombie) {
        dead_stacks(procs, n - 1).push(procs[n - 1]->0.kstack)
    } else {
        dead_stacks(procs, n - 1)
    }
}

/// Is the page at `p` private to a zombie among the first `n` slots?
pub open spec fn dead_page(
    m: Map<int, u64>,
    procs: Seq<Option<Process>>,
    n: int,
    p: int,
) -> bool {
    exists|i: int|
        #![trigger table_at(procs, i)]
        0 <= i < n && proc::in_state(procs, i, State::Zombie) && table_at(procs, i) >= 0
            && uvm::owns(m, table_at(procs, i), p)
}

/// How far reaping has come: the zombies among the first `n` slots are gone,
/// and exactly their pages have been freed.
pub open spec fn reaping(vm0: Vm, vm: Vm, procs: Seq<Option<Process>>, n: int) -> bool {
    &&& spaces(vm, reaped(procs, n))
    &&& vm.image == vm0.image
    &&& vm.root == vm0.root
    &&& forall|p: int| #[trigger]
        vm.kmem.pages().contains(p) <==> vm0.kmem.pages().contains(p) || dead_page(
            vm0.mem@,
            procs,
            n,
            p,
        )
    &&& forall|a: int|
        !dead_page(vm0.mem@, procs, n, sv39::page_of(a)) ==> #[trigger] vm.mem@[a] == vm0.mem@[a]
    &&& forall|i: int, p: int|
        #![trigger table_at(procs, i), uvm::owns(vm.mem@, table_at(procs, i), p)]
        (i >= n || !proc::in_state(procs, i, State::Zombie)) && table_at(procs, i) >= 0 ==> (
        uvm::owns(vm.mem@, table_at(procs, i), p) <==> uvm::owns(
            vm0.mem@,
            table_at(procs, i),
            p,
        ))
}

/// A slot that holds no zombie, or none with an address space, frees nothing.
proof fn lemma_reap_skip(vm0: Vm, vm: Vm, procs: Seq<Option<Process>>, n: int)
    requires
        reaping(vm0, vm, procs, n),
        0 <= n < procs.len(),
        !proc::in_state(procs, n, State::Zombie) || table_at(procs, n) < 0,
    ensures
        reaping(vm0, vm, procs, n + 1),
{
    let r1 = reaped(procs, n);
    let r2 = reaped(procs, n + 1);
    assert forall|i: int| #[trigger] table_at(r2, i) == table_at(r1, i) by {
        if i == n {
            assert(r1[i] == procs[i]);
        }
    }
    assert forall|i: int| (#[trigger] proc::at(r2, i)) is Some implies process_ok(
        proc::at(r2, i)->0,
        vm.root,
    ) by {
        assert(proc::at(r1, i) == proc::at(r2, i));
    }
    lemma_same_tables(vm, r1, r2);
    assert forall|p: int| dead_page(vm0.mem@, procs, n + 1, p) == dead_page(
        vm0.mem@,
        procs,
        n,
        p,
    ) by {
        lemma_dead_step(vm0.mem@, procs, n, p);
    }
}

/// The pages of the `n`-th slot's process count as dead if it is a zombie.
proof fn lemma_dead_step(m: Map<int, u64>, procs: Seq<Option<Process>>, n: int, p: int)
    requires
        0 <= n,
    ensures
        dead_page(m, procs, n + 1, p) <==> dead_page(m, procs, n, p) || (proc::in_state(
            procs,
            n,
            State::Zombie,
        ) && table_at(procs, n) >= 0 && uvm::owns(m, table_at(procs, n), p)),
{
    if dead_page(m, procs, n + 1, p) {
        let i = choose|i: int|
            #![trigger table_at(procs, i)]
            0 <= i < n + 1 && proc::in_state(procs, i, State::Zombie) && table_at(procs, i) >= 0
                && uvm::owns(m, table_at(procs, i), p);
        if i < n {
            assert(dead_page(m, procs, n, p));
        }
    }
    if dead_page(m, procs, n, p) {
        let i = choose|i: int|
            #![trigger table_at(procs, i)]
            0 <= i < n && proc::in_state(procs, i, State::Zombie) && table_at(procs, i) >= 0
                && uvm::owns(m, table_at(procs, i), p);
        assert(0 <= i < n + 1);
    }
}

/// Freeing one zombie's address space.
#[verifier::rlimit(60)]
proof fn lemma_reap_free(vm0: Vm, vm1: Vm, vm2: Vm, procs: Seq<Option<Process>>, n: int)
    requires
        reaping(vm0, vm1, procs, n),
        0 <= n < procs.len(),
        proc::in_state(procs, n, State::Zombie),
        table_at(procs, n) >= 0,
        vm2.wf(),
        vm2.image == vm1.image,
        vm2.root == vm1.root,
        forall|p: int| #[trigger]
            vm2.kmem.pages().contains(p) <==> vm1.kmem.pages().contains(p) || uvm::owns(
                vm1.mem@,
                table_at(procs, n),
                p,
            ),
        forall|a: int|
            !uvm::owns(vm1.mem@, table_at(procs, n), sv39::page_of(a)) ==> #[trigger] vm2.mem@[a]
                == vm1.mem@[a],
    ensures
        reaping(vm0, vm2, procs, n + 1),
{
    let t = table_at(procs, n);
    let r1 = reaped(procs, n);
    let r2 = reaped(procs, n + 1);
    let ts = tables(r1);
    assert(r1[n] == procs[n]);
    assert(ts[n] == t);
    lemma_family_leave(vm1, vm2, ts, n);
    assert(tables(r2) =~= ts.insert(n, -1)) by {
        assert forall|i: int| #[trigger] table_at(r2, i) == ts.insert(n, -1)[i] by {
            if i != n && 0 <= i < procs.len() {
                assert(r2[i] == r1[i]);
            }
        }
    }
    assert forall|i: int| (#[trigger] proc::at(r2, i)) is Some implies process_ok(
        proc::at(r2, i)->0,
        vm2.root,
    ) by {
        assert(i != n);
        assert(proc::at(r1, i) == proc::at(r2, i));
    }
    assert forall|p: int| #[trigger]
        vm2.kmem.pages().contains(p) <==> vm0.kmem.pages().contains(p) || dead_page(
            vm0.mem@,
            procs,
            n + 1,
            p,
        ) by {
        lemma_dead_step(vm0.mem@, procs, n, p);
        assert(uvm::owns(vm1.mem@, t, p) <==> uvm::owns(vm0.mem@, t, p));
    }
    assert forall|a: int|
        !dead_page(vm0.mem@, procs, n + 1, sv39::page_of(a)) implies #[trigger] vm2.mem@[a]
        == vm0.mem@[a] by {
        let p = sv39::page_of(a);
        lemma_dead_step(vm0.mem@, procs, n, p);
        assert(uvm::owns(vm1.mem@, t, p) <==> uvm::owns(vm0.mem@, t, p));
        assert(vm1.mem@[a] == vm0.mem@[a]);
    }
    assert forall|i: int, p: int|
        #![trigger table_at(procs, i), uvm::owns(vm2.mem@, table_at(procs, i), p)]
        (i >= n + 1 || !proc::in_state(procs, i, State::Zombie)) && table_at(
            procs,
            i,
        ) >= 0 implies (uvm::owns(vm2.mem@, table_at(procs, i), p) <==> uvm::owns(
        vm0.mem@,
        table_at(procs, i),
        p,
    )) by {
        assert(i != n);
        assert(r1[i] == procs[i]);
        assert(ts[i] == table_at(procs, i));
        assert(uvm::owns(vm1.mem@, table_at(procs, i), p) <==> uvm::owns(
            vm0.mem@,
            table_at(procs, i),
            p,
        ));
        lemma_leave_owns(vm1, vm2, ts, n, i, p);
    }
}

/// Freeing one address space leaves the pages of another one its own.
proof fn lemma_leave_owns(vm1: Vm, vm2: Vm, ts: Map<int, int>, c: int, i: int, p: int)
    requires
        vm1.wf(),
        vm1.root != 0,
        family(vm1, ts),
        i != c,
        ts[c] >= 0,
        ts[i] >= 0,
        vm2.image == vm1.image,
        vm2.root == vm1.root,
        forall|q: int| #[trigger]
            vm2.kmem.pages().contains(q) ==> vm1.kmem.pages().contains(q) || uvm::owns(
                vm1.mem@,
                ts[c],
                q,
            ),
        forall|a: int|
            !uvm::owns(vm1.mem@, ts[c], sv39::page_of(a)) ==> #[trigger] vm2.mem@[a]
                == vm1.mem@[a],
    ensures
        uvm::owns(vm2.mem@, ts[i], p) <==> uvm::owns(vm1.mem@, ts[i], p),
{
    reveal(family);
    assert(apart(vm1.mem@, ts[c], ts[i]));
    lemma_other_keep(vm1, vm2, ts[c], ts[i]);
}

/// Reaping threads breaks no invariant of the slot table.
proof fn lemma_reaped_wf(s1: Scheduler, s2: Scheduler)
    requires
        s1.wf(),
        s1.current is None,
        s2.procs@ == reaped(s1.procs@, s1.procs@.len() as int),
        s2 == (Scheduler { procs: s2.procs, ..s1 }),
    ensures
        s2.wf(),
{
    assert forall|i: int| (#[trigger] proc::at(s2.procs@, i)) is Some implies proc::at(
        s2.procs@,
        i,
    ) == proc::at(s1.procs@, i) by {}
    assert forall|i: int| #[trigger] proc::in_state(s2.procs@, i, State::Running) implies s2.current
        == Some(i as usize) by {
        assert(proc::in_state(s1.procs@, i, State::Running));
    }
    assert forall|i: int, j: int|
        #![trigger proc::at(s2.procs@, i), proc::at(s2.procs@, j)]
        proc::at(s2.procs@, i) is Some && proc::at(s2.procs@, j) is Some && i != j implies proc::at(
        s2.procs@,
        i,
    )->0.pid != proc::at(s2.procs@, j)->0.pid by {
        assert(proc::at(s1.procs@, i) is Some && proc::at(s1.procs@, j) is Some);
    }
}

/// Reap zombies: free their private address spaces (code, heap and stack
/// frames, and the page-table pages) and empty their slots. Returns the kernel
/// stacks to free. The scheduler runs on the boot stack and the kernel's
/// table, so nothing it frees is in use.
#[verifier::rlimit(60)]
fn reap(s: &mut Scheduler, hart: &Hart, vm: &mut Vm) -> (stacks: Vec<u64>)
    requires
        old(s).wf(),
        old(s).current is None,
        spaces(*old(vm), old(s).procs@),
        spinlock::masked(*hart),
        hart.satp == vm::satp_of(old(vm).root),
    ensures
        final(s).wf(),
        final(s).procs@ == reaped(old(s).procs@, old(s).procs@.len() as int),
        *final(s) == (Scheduler { procs: final(s).procs, ..*old(s) }),
        reaping(*old(vm), *final(vm), old(s).procs@, old(s).procs@.len() as int),
        stacks@ == dead_stacks(old(s).procs@, old(s).procs@.len() as int),
{
    let ghost vm0 = *vm;
    let ghost s0 = *s;
    let ghost procs = s.procs@;
    let mut stacks: Vec<u64> = Vec::new();
    let n: usize = proc::slots(s, hart);
    let mut i: usize = 0;
    assert(reaped(procs, 0) =~= procs);
    while i < n
        invariant
            i <= n,
            spinlock::masked(*hart),
            hart.satp == vm::satp_of(vm0.root),
            vm.root == vm0.root,
            n == procs.len(),
            s.procs@ == reaped(procs, i as int),
            *s == (Scheduler { procs: s.procs, ..s0 }),
            reaping(vm0, *vm, procs, i as int),
            stacks@ == dead_stacks(procs, i as int),
        decreases n - i,
    {
        assert(s.procs@[i as int] == procs[i as int]);
        match proc::slot(s, hart, i) {
            Some(p) => {
                if matches!(p.state, State::Zombie) {
                    if let Some(table) = p.user_table {
                        let ghost vm1 = *vm;
                        proof {
                            assert(table_at(s.procs@, i as int) == table);
                            lemma_table(*vm, s.procs@, i as int);
                            assert(table_at(procs, i as int) == table);
                            uvm::lemma_not_active(*vm, table);
                        }
                        uvm::free_user_table(vm, hart, table);
                        proof {
                            lemma_reap_free(vm0, vm1, *vm, procs, i as int);
                        }
                    } else {
                        proof {
                            lemma_reap_skip(vm0, *vm, procs, i as int);
                        }
                    }
                    stacks.push(p.kstack);
                    proc::set_slot(s, hart, i, None);
                } else {
                    proof {
                        lemma_reap_skip(vm0, *vm, procs, i as int);
                    }
                }
            },
            None => {
                proof {
                    lemma_reap_skip(vm0, *vm, procs, i as int);
                }
            },
        }
        assert(s.procs@ =~= reaped(procs, i as int + 1));
        i = i + 1;
    }
    proof {
        lemma_reaped_wf(s0, *s);
    }
    stacks
}

/// The first runnable slot at the `i`-th place from `start` on, going round
/// the table once; -1 if there is none.
pub open spec fn pick(procs: Seq<Option<Process>>, start: int, i: int) -> int
    decreases procs.len() - i,
{
    if i >= procs.len() {
        -1
    } else {
        let idx = (start + i) % procs.len() as int;
        if proc::in_state(procs, idx, State::Runnable) {
            idx
        } else {
            pick(procs, start, i + 1)
        }
    }
}

/// One step around the table.
proof fn lemma_next(x: int, n: int)
    requires
        n > 0,
    ensures
        0 <= x % n < n,
        (x + 1) % n == if x % n + 1 == n {
            0
        } else {
            x % n + 1
        },
{
    let q = x / n;
    let r = x % n;
    vstd::arithmetic::div_mod::lemma_fundamental_div_mod(x, n);
    vstd::arithmetic::div_mod::lemma_mod_bound(x, n);
    if r + 1 == n {
        assert(x + 1 == (q + 1) * n + 0) by (nonlinear_arith)
            requires
                x == n * q + r,
                r + 1 == n,
        ;
        vstd::arithmetic::div_mod::lemma_fundamental_div_mod_converse(x + 1, n, q + 1, 0);
    } else {
        assert(x + 1 == q * n + (r + 1)) by (nonlinear_arith)
            requires
                x == n * q + r,
        ;
        vstd::arithmetic::div_mod::lemma_fundamental_div_mod_converse(x + 1, n, q, r + 1);
    }
}

/// The round-robin scan misses nobody: it comes up empty only if no thread is
/// runnable, and every slot it passes on the way to its pick is not.
pub proof fn lemma_pick(procs: Seq<Option<Process>>, start: int, i: int)
    requires
        0 <= start,
        0 <= i <= procs.len(),
    ensures
        -1 <= pick(procs, start, i) < procs.len(),
        pick(procs, start, i) >= 0 ==> proc::in_state(
            procs,
            pick(procs, start, i),
            State::Runnable,
        ) && exists|k: int|
            i <= k < procs.len() && pick(procs, start, i) == #[trigger] ((start + k)
                % procs.len() as int) && forall|j: int|
                i <= j < k ==> !proc::in_state(
                    procs,
                    #[trigger] ((start + j) % procs.len() as int),
                    State::Runnable,
                ),
        pick(procs, start, i) < 0 ==> forall|j: int|
            i <= j < procs.len() ==> !proc::in_state(
                procs,
                #[trigger] ((start + j) % procs.len() as int),
                State::Runnable,
            ),
    decreases procs.len() - i,
{
    if i < procs.len() {
        let n = procs.len() as int;
        lemma_next(start + i, n);
        let idx = (start + i) % n;
        if !proc::in_state(procs, idx, State::Runnable) {
            lemma_pick(procs, start, i + 1);
            if pick(procs, start, i) >= 0 {
                let k = choose|k: int|
                    i + 1 <= k < procs.len() && pick(procs, start, i + 1) == #[trigger] ((start + k)
                        % procs.len() as int) && forall|j: int|
                        i + 1 <= j < k ==> !proc::in_state(
                            procs,
                            #[trigger] ((start + j) % procs.len() as int),
                            State::Runnable,
                        );
                assert(pick(procs, start, i) == (start + k) % procs.len() as int);
            }
        }
    }
}

/// What the scheduler does next.
pub enum Pick {
    /// Load `satp`, then save the scheduler's context and restore that of the
    /// thread in `slot`.
    Run { slot: usize, satp: u64 },
    /// Nothing is runnable: wait for an interrupt.
    Idle,
}

/// The picked thread becomes the running one.
proof fn lemma_picked(s1: Scheduler, s2: Scheduler, idx: int)
    requires
        s1.wf(),
        s1.current is None,
        0 <= idx < s1.procs@.len() <= usize::MAX,
        proc::in_state(s1.procs@, idx, State::Runnable),
        s2.procs@ == proc::moved(s1.procs@, idx, State::Running),
        s2.current == Some(idx as usize),
        s2.next_slot == idx + 1,
        s2.next_pid == s1.next_pid,
    ensures
        s2.wf(),
{
    assert forall|i: int| #[trigger] proc::in_state(s2.procs@, i, State::Running) implies s2.current
        == Some(i as usize) by {
        if i != idx {
            assert(proc::in_state(s1.procs@, i, State::Running));
        }
    }
    assert forall|i: int| (#[trigger] proc::at(s2.procs@, i)) is Some implies 1 <= proc::at(
        s2.procs@,
        i,
    )->0.pid < s2.next_pid by {
        assert(proc::at(s1.procs@, i) is Some);
    }
    assert forall|i: int, j: int|
        #![trigger proc::at(s2.procs@, i), proc::at(s2.procs@, j)]
        proc::at(s2.procs@, i) is Some && proc::at(s2.procs@, j) is Some && i != j implies proc::at(
        s2.procs@,
        i,
    )->0.pid != proc::at(s2.procs@, j)->0.pid by {
        assert(proc::at(s1.procs@, i) is Some && proc::at(s1.procs@, j) is Some);
    }
}

/// Moving a thread to another state concerns no address space.
pub proof fn lemma_moved_spaces(vm: Vm, procs: Seq<Option<Process>>, c: int, st: State)
    requires
        spaces(vm, procs),
        proc::at(procs, c) is Some,
    ensures
        spaces(vm, proc::moved(procs, c, st)),
{
    let procs2 = proc::moved(procs, c, st);
    assert forall|i: int| #[trigger] table_at(procs2, i) == table_at(procs, i) by {}
    assert forall|i: int| (#[trigger] proc::at(procs2, i)) is Some implies process_ok(
        proc::at(procs2, i)->0,
        vm.root,
    ) by {
        assert(proc::at(procs, i) is Some);
    }
    lemma_same_tables(vm, procs, procs2);
}

/// Waking threads concerns no address space.
pub proof fn lemma_woken_spaces(vm: Vm, procs: Seq<Option<Process>>, chan: u64)
    requires
        spaces(vm, procs),
    ensures
        spaces(vm, proc::woken(procs, chan)),
{
    let procs2 = proc::woken(procs, chan);
    assert forall|i: int| #[trigger] table_at(procs2, i) == table_at(procs, i) by {}
    assert forall|i: int| (#[trigger] proc::at(procs2, i)) is Some implies process_ok(
        proc::at(procs2, i)->0,
        vm.root,
    ) by {
        assert(proc::at(procs, i) is Some);
    }
    lemma_same_tables(vm, procs, procs2);
}

/// What one round of the scheduler does: zombies are reaped, and the next runnable
/// thread after the one that ran last is running, on its own table and with
/// interrupts off; or none is runnable, and interrupts are on.
pub open spec fn scheduled(
    s1: Scheduler,
    s2: Scheduler,
    h1: Hart,
    h2: Hart,
    vm1: Vm,
    vm2: Vm,
    next: Pick,
    stacks: Seq<u64>,
) -> bool {
    let left = reaped(s1.procs@, s1.procs@.len() as int);
    let idx = pick(left, s1.next_slot as int, 0);
    let woke = Hart { sstatus: riscv::with_sie(h1.sstatus), ..h1 };
    &&& stacks == dead_stacks(s1.procs@, s1.procs@.len() as int)
    &&& reaping(vm1, vm2, s1.procs@, s1.procs@.len() as int)
    &&& if idx >= 0 {
        &&& next == (Pick::Run {
            slot: idx as usize,
            satp: vm::satp_of(left[idx]->0.page_table),
        })
        &&& s2.procs@ == proc::moved(left, idx, State::Running)
        &&& s2.current == Some(idx as usize)
        &&& s2.next_slot == idx + 1
        &&& s2 == (Scheduler {
            procs: s2.procs,
            current: s2.current,
            next_slot: s2.next_slot,
            ..s1
        })
        &&& h2 == (Hart {
            satp: vm::satp_of(left[idx]->0.page_table),
            ..spinlock::pushed(woke)
        })
    } else {
        &&& next is Idle
        &&& s2.procs@ == left
        &&& s2 == (Scheduler { procs: s2.procs, ..s1 })
        &&& h2 == proc::section(woke)
    }
}

/// One round of the scheduler loop, up to the context switch. Opens a window
/// for pending interrupts (and their wakeups) to land, reaps zombies, and
/// picks the next runnable thread after the one that ran last. A picked thread
/// runs holding the scheduler's level of interrupt-disable and gives it back
/// when it switches to the scheduler again. Returns the pick and the kernel
/// stacks of the reaped threads.
#[verifier::rlimit(60)]
pub fn scheduler(s: &mut Scheduler, hart: &mut Hart, vm: &mut Vm) -> (out: (Pick, Vec<u64>))
    requires
        old(s).wf(),
        old(s).current is None,
        spaces(*old(vm), old(s).procs@),
        old(hart).noff == 0,
        old(hart).satp == vm::satp_of(old(vm).root),
    ensures
        final(s).wf(),
        spaces(*final(vm), final(s).procs@),
        spinlock::hart_ok(*final(hart)),
        scheduled(
            *old(s),
            *final(s),
            *old(hart),
            *final(hart),
            *old(vm),
            *final(vm),
            out.0,
            out.1@,
        ),
{
    let ghost procs0 = s.procs@;
    riscv::intr_on(hart);
    proof {
        riscv::lemma_sie(old(hart).sstatus);
        riscv::lemma_sie(hart.sstatus);
    }
    spinlock::push_off(hart);
    let stacks: Vec<u64> = reap(s, hart, vm);
    let ghost left = s.procs@;
    let ghost s1 = *s;
    let n: usize = proc::slots(s, hart);
    let start: usize = proc::next_slot(s, hart);
    let mut idx: usize = if start >= n {
        0
    } else {
        start
    };
    let mut i: usize = 0;
    let mut picked: Option<usize> = None;
    proof {
        if n > 0 {
            if start == n {
                vstd::arithmetic::div_mod::lemma_mod_self_0(n as int);
            } else {
                vstd::arithmetic::div_mod::lemma_small_mod(start as nat, n as nat);
            }
        }
    }
    while i < n && picked.is_none()
        invariant
            i <= n,
            n == left.len(),
            left == s.procs@,
            spinlock::masked(*hart),
            *s == s1,
            start == s1.next_slot,
            i < n ==> idx < n && idx == (start + i) % n as int,
            match picked {
                Some(k) => pick(left, start as int, 0) == k && k < n && proc::in_state(
                    left,
                    k as int,
                    State::Runnable,
                ),
                None => pick(left, start as int, 0) == pick(left, start as int, i as int),
            },
        decreases n - i,
    {
        proof {
            lemma_next(start + i, n as int);
        }
        let hit: bool = match proc::slot(s, hart, idx) {
            Some(p) => matches!(p.state, State::Runnable),
            None => false,
        };
        assert(hit == proc::in_state(left, idx as int, State::Runnable));
        if hit {
            picked = Some(idx);
        }
        i = i + 1;
        idx = if idx + 1 == n {
            0
        } else {
            idx + 1
        };
    }
    match picked {
        Some(k) => {
            proc::set_next_slot(s, hart, k + 1);
            proc::set_current(s, hart, Some(k));
            proc::set_state(s, hart, k, State::Running);
            let table: u64 = proc::slot(s, hart, k).unwrap().page_table;
            proof {
                lemma_picked(s1, *s, k as int);
                lemma_moved_spaces(*vm, left, k as int, State::Running);
                lemma_page_table(*vm, left, k as int);
            }
            // Run the thread on its own address space (which also maps the
            // kernel).
            hart.satp = vm::switch_to(table);
            (Pick::Run { slot: k, satp: hart.satp }, stacks)
        },
        None => {
            spinlock::pop_off(hart);
            // Nothing runnable: idle until an interrupt changes that.
            riscv::intr_on(hart);
            proof {
                riscv::lemma_sie(hart.sstatus);
            }
            (Pick::Idle, stacks)
        },
    }
}

/// A process's page table is never null.
proof fn lemma_page_table(vm: Vm, procs: Seq<Option<Process>>, i: int)
    requires
        spaces(vm, procs),
        proc::at(procs, i) is Some,
    ensures
        proc::at(procs, i)->0.page_table != 0,
{
    if table_at(procs, i) >= 0 {
        lemma_table(vm, procs, i);
        uvm::lemma_shared(vm.mem@, table_at(procs, i), vm.root as int, vm.start());
    } else {
        sv39::lemma_tree(vm.mem@, vm.root as int, 0, 0);
    }
}

/// Back in the scheduler's context after a thread ran: take the kernel table
/// back, and leave the interrupt-disabled region the thread gave the CPU up
/// in.
pub fn scheduler_return(s: &mut Scheduler, hart: &mut Hart, vm: &Vm) -> (satp: u64)
    requires
        old(s).wf(),
        spaces(*vm, old(s).procs@),
        old(s).running() matches Some(p) && p.state != State::Running,
        old(hart).noff == 1,
        spinlock::hart_ok(*old(hart)),
    ensures
        final(s).wf(),
        final(s).current is None,
        *final(s) == (Scheduler { current: None, ..*old(s) }),
        spaces(*vm, final(s).procs@),
        satp == vm::satp_of(vm.root),
        final(hart).satp == satp,
        final(hart).noff == 0,
        *final(hart) == spinlock::popped(Hart { satp, ..*old(hart) }),
        spinlock::hart_ok(*final(hart)),
{
    let satp: u64 = vm::switch_to(vm::kernel_root(vm));
    hart.satp = satp;
    let ghost s0 = *s;
    proc::set_current(s, hart, None);
    proof {
        assert forall|i: int| #[trigger] proc::in_state(
            s.procs@,
            i,
            State::Running,
        ) implies s.current == Some(i as usize) by {
            assert(proc::in_state(s0.procs@, i, State::Running));
            assert(i < s.procs.len());
            assert(s0.current->0 as int == i);
        }
    }
    spinlock::pop_off(hart);
    satp
}

/// How many slots the scheduler looks at, from `start` on, before slot `j` of
/// `n`.
pub open spec fn turns(start: int, j: int, n: int) -> int {
    (j - start) % n
}

/// The scheduler is fair: it runs a thread whenever one is runnable, and whenever
/// it runs another one than the runnable thread in slot `j`, fewer slots are left
/// before that thread's turn than there were.
pub proof fn lemma_round_robin(procs: Seq<Option<Process>>, start: int, j: int)
    requires
        0 <= start <= procs.len(),
        0 <= j < procs.len(),
        proc::in_state(procs, j, State::Runnable),
    ensures
        ({
            let n = procs.len() as int;
            let idx = pick(procs, start, 0);
            &&& 0 <= idx < n
            &&& idx != j ==> turns(idx + 1, j, n) < turns(start, j, n)
        }),
{
    let n = procs.len() as int;
    lemma_pick(procs, start, 0);
    let d = turns(start, j, n);
    lemma_turn(start, j, n);
    let idx = pick(procs, start, 0);
    assert((start + d) % n == j);
    let k = choose|k: int|
        0 <= k < procs.len() && idx == #[trigger] ((start + k) % procs.len() as int) && forall|i: int|
            0 <= i < k ==> !proc::in_state(
                procs,
                #[trigger] ((start + i) % procs.len() as int),
                State::Runnable,
            );
    assert(k <= d);
    if idx != j {
        lemma_closer(start, j, n, k);
    }
}

/// Slot `j` comes up after [`turns`] slots.
proof fn lemma_turn(start: int, j: int, n: int)
    requires
        0 <= start,
        0 <= j < n,
    ensures
        0 <= turns(start, j, n) < n,
        (start + turns(start, j, n)) % n == j,
{
    vstd::arithmetic::div_mod::lemma_mod_bound(j - start, n);
    vstd::arithmetic::div_mod::lemma_add_mod_noop_right(start, j - start, n);
    vstd::arithmetic::div_mod::lemma_small_mod(j as nat, n as nat);
}

/// Passing `k` slots and running the next one brings slot `j` closer.
proof fn lemma_closer(start: int, j: int, n: int, k: int)
    requires
        0 <= start,
        0 <= j < n,
        0 <= k <= turns(start, j, n),
        (start + k) % n != j,
    ensures
        turns((start + k) % n + 1, j, n) < turns(start, j, n),
{
    let d = turns(start, j, n);
    lemma_turn(start, j, n);
    assert(k != d);
    let idx = (start + k) % n;
    vstd::arithmetic::div_mod::lemma_mod_bound(start + k, n);
    // j - (idx + 1) and d - k - 1 differ by a multiple of n.
    vstd::arithmetic::div_mod::lemma_fundamental_div_mod(start + k, n);
    vstd::arithmetic::div_mod::lemma_fundamental_div_mod(j - start, n);
    let q = (start + k) / n + (j - start) / n;
    assert(j - (idx + 1) == n * q + (d - k - 1)) by (nonlinear_arith)
        requires
            start + k == n * ((start + k) / n) + idx,
            j - start == n * ((j - start) / n) + d,
            q == (start + k) / n + (j - start) / n,
    ;
    vstd::arithmetic::div_mod::lemma_mod_multiples_vanish(q, d - k - 1, n);
    vstd::arithmetic::div_mod::lemma_small_mod((d - k - 1) as nat, n as nat);
}

} // verus!
