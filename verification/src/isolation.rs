//! What the kernel promises of its processes as a whole: each one's memory is
//! its own, the kernel's is nobody's, and no page is ever lost.
use vstd::prelude::*;

use crate::kernel::Kernel;
use crate::loader;
use crate::memlayout;
use crate::physmem;
use crate::proc;
use crate::riscv;
use crate::sv39;
use crate::syscall;
use crate::syscall::Action;
use crate::trap;
use crate::trap::{TrapAction, TrapFrame};
use crate::uproc;
use crate::usercopy;
use crate::uvm;
use crate::uvm::USER_TEXT;
use crate::vm;
use crate::vm::{Vm, VA_MAX};

verus! {

/// Every address space contains the full kernel mapping: outside of the user
/// slot it translates as the kernel's own table does.
pub proof fn lemma_kernel_shared(vm: Vm, u: int, va: u64)
    requires
        vm.wf(),
        vm.root != 0,
        uvm::space(vm, u),
        va < VA_MAX,
        va < 0x4000_0000 || 0x8000_0000 <= va,
    ensures
        vm::translation(vm.mem@, u, va) == vm::translation(vm.mem@, vm.root as int, va),
{
    uvm::lemma_shared(vm.mem@, u, vm.root as int, vm.start());
    assert(sv39::page_idx(va as int / 4096));
    assert(!uvm::user_page(va as int / 4096));
}

/// What user mode can reach is the process's own: a page of the user slot, above
/// the kernel and its heap, that is neither free nor part of a page table the
/// kernel uses.
pub proof fn lemma_confined(k: Kernel, i: int, va: u64)
    requires
        k.wf(),
        uproc::table_at(k.sched.procs@, i) >= 0,
        va < VA_MAX,
        usercopy::user_access(
            k.vm.mem@,
            uproc::table_at(k.sched.procs@, i),
            va as int / 4096,
            false,
        ),
    ensures
        ({
            let m = k.vm.mem@;
            let t = uproc::table_at(k.sched.procs@, i);
            let page = sv39::pte_pa(sv39::leaf(m, t, va as int / 4096));
            &&& 0x4000_0000 <= va < 0x8000_0000
            &&& k.vm.start() <= page
            &&& memlayout::dram_page(page)
            &&& uvm::owns(m, t, page)
            &&& !k.vm.kmem.pages().contains(page)
            &&& sv39::off_tables(m, k.vm.root as int, page)
            &&& sv39::off_tables(m, t, page)
        }),
{
    let vp = va as int / 4096;
    let t = uproc::table_at(k.sched.procs@, i);
    uproc::lemma_table(k.vm, k.sched.procs@, i);
    assert(sv39::page_idx(vp));
    usercopy::lemma_access_private(k.vm, t, vp, false);
}

/// The hart is on a process's table exactly while that process runs, so user mode
/// translates by the table of its own process, and whatever table is freed while
/// another thread runs, or none, is not in use.
pub proof fn lemma_active(k: Kernel, i: int)
    requires
        k.wf(),
        uproc::table_at(k.sched.procs@, i) >= 0,
    ensures
        k.hart.satp == vm::satp_of(uproc::table_at(k.sched.procs@, i) as u64) <==> k.sched.current
            == Some(i as usize),
{
    let procs = k.sched.procs@;
    let t = proc::at(procs, i)->0.page_table;
    uproc::lemma_table(k.vm, procs, i);
    uvm::lemma_not_active(k.vm, t);
    assert(i < k.sched.procs.len());
    if let Some(c) = k.sched.current {
        assert(proc::at(procs, c as int) is Some);
        if c != i && uproc::table_at(procs, c as int) >= 0 {
            let q = proc::at(procs, c as int)->0.page_table;
            uproc::lemma_table(k.vm, procs, c as int);
            uproc::lemma_apart(k.vm, procs, i, c as int);
            uvm::lemma_shared(k.vm.mem@, t as int, k.vm.root as int, k.vm.start());
            uvm::lemma_shared(k.vm.mem@, q as int, k.vm.root as int, k.vm.start());
            assert(uvm::owns(k.vm.mem@, t as int, t as int));
            assert(t != q);
            vm::lemma_satp(t, q);
        }
    }
}

/// Two processes never share a page: what one can reach at any address is a
/// different page from what another can reach at any address, the same one
/// included.
pub proof fn lemma_isolated(k: Kernel, i: int, j: int, va: u64, wa: u64)
    requires
        k.wf(),
        i != j,
        uproc::table_at(k.sched.procs@, i) >= 0,
        uproc::table_at(k.sched.procs@, j) >= 0,
        va < VA_MAX,
        wa < VA_MAX,
        usercopy::user_access(
            k.vm.mem@,
            uproc::table_at(k.sched.procs@, i),
            va as int / 4096,
            false,
        ),
        usercopy::user_access(
            k.vm.mem@,
            uproc::table_at(k.sched.procs@, j),
            wa as int / 4096,
            false,
        ),
    ensures
        sv39::pte_pa(
            sv39::leaf(k.vm.mem@, uproc::table_at(k.sched.procs@, i), va as int / 4096),
        ) != sv39::pte_pa(
            sv39::leaf(k.vm.mem@, uproc::table_at(k.sched.procs@, j), wa as int / 4096),
        ),
{
    lemma_confined(k, i, va);
    lemma_confined(k, j, wa);
    uproc::lemma_apart(k.vm, k.sched.procs@, i, j);
}

/// What was copied to a process's memory is what is read back from it.
pub proof fn lemma_copy_round_trip(
    vm1: Vm,
    vm2: Vm,
    root: int,
    ptr: u64,
    bytes: Seq<u8>,
)
    requires
        usercopy::user_range(vm1.mem@, root, ptr, bytes.len() as int, true),
        usercopy::user_written(vm1.mem@, vm2.mem@, root, ptr as int, bytes),
        sv39::same_tree(vm1.mem@, vm2.mem@, root),
    ensures
        usercopy::user_range(vm2.mem@, root, ptr, bytes.len() as int, false),
        usercopy::user_bytes(vm2.mem@, root, ptr as int, bytes.len() as int) == bytes,
{
    let n = bytes.len() as int;
    assert forall|vp: int| #[trigger] usercopy::in_range(ptr as int, n, vp) implies usercopy::user_access(
        vm2.mem@,
        root,
        vp,
        false,
    ) by {
        assert(usercopy::user_access(vm1.mem@, root, vp, true));
        assert(sv39::page_idx(vp));
    }
    assert forall|i: int| 0 <= i < n implies usercopy::user_bytes(
        vm2.mem@,
        root,
        ptr as int,
        n,
    )[i] == bytes[i] by {
        assert(sv39::page_idx((ptr + i) / 4096));
        assert(usercopy::phys(vm2.mem@, root, ptr + i) == usercopy::phys(
            vm1.mem@,
            root,
            ptr + i,
        ));
    }
    assert(usercopy::user_bytes(vm2.mem@, root, ptr as int, n) =~= bytes);
}

/// A freshly loaded process reads its program's image at the address it starts
/// at, and may not write it.
pub proof fn lemma_image_readable(vm: Vm, m0: Map<int, u64>, u: int, src: int, len: int)
    requires
        vm.wf(),
        vm.root != 0,
        uvm::space(vm, u),
        0 < len <= loader::TEXT_MAX,
        loader::loaded(m0, vm.mem@, u, src, len),
    ensures
        usercopy::user_range(vm.mem@, u, USER_TEXT, len, false),
        !usercopy::user_range(vm.mem@, u, USER_TEXT, len, true),
        forall|i: int|
            0 <= i < len ==> #[trigger] usercopy::user_bytes(vm.mem@, u, USER_TEXT as int, len)[i]
                == physmem::byte_at(m0, src + i),
{
    let m = vm.mem@;
    assert forall|vp: int| #[trigger]
        usercopy::in_range(USER_TEXT as int, len, vp) implies usercopy::user_access(
        m,
        u,
        vp,
        false,
    ) by {
        lemma_text_page(vm, m0, u, src, len, vp - 0x4_0000);
    }
    assert forall|i: int|
        0 <= i < len implies #[trigger] usercopy::user_bytes(m, u, USER_TEXT as int, len)[i]
        == physmem::byte_at(m0, src + i) by {
        let n = i / 4096;
        lemma_text_page(vm, m0, u, src, len, n);
        let f = uvm::frame(m, u, 0x4_0000 + n);
        assert((USER_TEXT + i) / 4096 == 0x4_0000 + n && (USER_TEXT + i) % 4096 == i % 4096);
        assert(physmem::byte_at(m, f + i % 4096) == physmem::byte_at(m0, src + n * 4096 + i % 4096));
    }
    lemma_text_page(vm, m0, u, src, len, 0);
    assert(usercopy::in_range(USER_TEXT as int, len, 0x4_0000));
}

/// A page of code is readable and not writable in user mode.
proof fn lemma_text_page(vm: Vm, m0: Map<int, u64>, u: int, src: int, len: int, i: int)
    requires
        vm.wf(),
        vm.root != 0,
        uvm::space(vm, u),
        0 < len <= loader::TEXT_MAX,
        loader::loaded(m0, vm.mem@, u, src, len),
        0 <= i < loader::text_pages(len),
    ensures
        usercopy::user_access(vm.mem@, u, 0x4_0000 + i, false),
        !usercopy::user_access(vm.mem@, u, 0x4_0000 + i, true),
        loader::text_loaded(m0, vm.mem@, u, src, len, i),
        uvm::frame(vm.mem@, u, 0x4_0000 + i) == sv39::pte_pa(
            sv39::leaf(vm.mem@, u, 0x4_0000 + i),
        ),
{
    assert(loader::text_loaded(m0, vm.mem@, u, src, len, i));
    let f = uvm::frame(vm.mem@, u, 0x4_0000 + i);
    uvm::lemma_user_page(vm.mem@, u, vm.root as int, vm.start(), 0x4_0000 + i);
    loader::lemma_perms();
    sv39::lemma_leaf_pte(f as u64, loader::TEXT_PERM);
}

/// After a fork the child reads at every address what the parent read there,
/// and may write where the parent might.
pub proof fn lemma_fork_copies(
    vm1: Vm,
    parent: int,
    vm2: Vm,
    child: int,
    ptr: u64,
    len: int,
    write: bool,
)
    requires
        vm1.wf(),
        vm1.root != 0,
        uvm::space(vm1, parent),
        vm2.wf(),
        vm2.root != 0,
        uvm::space(vm2, child),
        vm2.image == vm1.image,
        forall|vp: int|
            uvm::user_page(vp) ==> #[trigger] uvm::cloned(vm1.mem@, parent, vm2.mem@, child, vp),
        0 <= len,
    ensures
        usercopy::user_range(vm1.mem@, parent, ptr, len, write) <==> usercopy::user_range(
            vm2.mem@,
            child,
            ptr,
            len,
            write,
        ),
        usercopy::user_range(vm1.mem@, parent, ptr, len, write) ==> usercopy::user_bytes(
            vm2.mem@,
            child,
            ptr as int,
            len,
        ) == usercopy::user_bytes(vm1.mem@, parent, ptr as int, len),
{
    let m1 = vm1.mem@;
    let m2 = vm2.mem@;
    if ptr + len <= VA_MAX {
        assert forall|vp: int| #[trigger] usercopy::in_range(ptr as int, len, vp) implies (
        usercopy::user_access(m1, parent, vp, write) <==> usercopy::user_access(
            m2,
            child,
            vp,
            write,
        )) by {
            lemma_forked_page(vm1, parent, vm2, child, vp, write);
        }
    }
    if usercopy::user_range(m1, parent, ptr, len, write) {
        assert forall|i: int| 0 <= i < len implies usercopy::user_bytes(
            m2,
            child,
            ptr as int,
            len,
        )[i] == usercopy::user_bytes(m1, parent, ptr as int, len)[i] by {
            let va = ptr + i;
            let vp = va / 4096;
            assert(usercopy::in_range(ptr as int, len, vp));
            lemma_forked_page(vm1, parent, vm2, child, vp, write);
            let f = uvm::frame(m1, parent, vp);
            let g = uvm::frame(m2, child, vp);
            let o = va % 4096;
            let w = o - o % 8;
            assert(m2[g + w] == m1[f + w]);
            assert((g + o) % 8 == o % 8 && (f + o) % 8 == o % 8);
        }
        assert(usercopy::user_bytes(m2, child, ptr as int, len) =~= usercopy::user_bytes(
            m1,
            parent,
            ptr as int,
            len,
        ));
    }
}

/// One page of a forked address space.
proof fn lemma_forked_page(vm1: Vm, parent: int, vm2: Vm, child: int, vp: int, write: bool)
    requires
        vm1.wf(),
        vm1.root != 0,
        uvm::space(vm1, parent),
        vm2.wf(),
        vm2.root != 0,
        uvm::space(vm2, child),
        sv39::page_idx(vp),
        forall|q: int|
            uvm::user_page(q) ==> #[trigger] uvm::cloned(vm1.mem@, parent, vm2.mem@, child, q),
    ensures
        usercopy::user_access(vm1.mem@, parent, vp, write) <==> usercopy::user_access(
            vm2.mem@,
            child,
            vp,
            write,
        ),
        usercopy::user_access(vm1.mem@, parent, vp, write) ==> {
            let f = uvm::frame(vm1.mem@, parent, vp);
            let g = uvm::frame(vm2.mem@, child, vp);
            &&& f == sv39::pte_pa(sv39::leaf(vm1.mem@, parent, vp))
            &&& g == sv39::pte_pa(sv39::leaf(vm2.mem@, child, vp))
            &&& f % 4096 == 0
            &&& g % 4096 == 0
            &&& forall|o: int|
                0 <= o < 4096 && o % 8 == 0 ==> #[trigger] vm2.mem@[g + o] == vm1.mem@[f + o]
        },
{
    let m1 = vm1.mem@;
    let m2 = vm2.mem@;
    if usercopy::user_access(m1, parent, vp, write) {
        usercopy::lemma_access_private(vm1, parent, vp, write);
    }
    if usercopy::user_access(m2, child, vp, write) {
        usercopy::lemma_access_private(vm2, child, vp, write);
    }
    if uvm::user_page(vp) {
        assert(uvm::cloned(m1, parent, m2, child, vp));
        sv39::lemma_table_pte(0);
        let e = sv39::leaf(m1, parent, vp);
        if uvm::frame(m1, parent, vp) >= 0 {
            uvm::lemma_user_page(m1, parent, vm1.root as int, vm1.start(), vp);
            uvm::lemma_user_page(m2, child, vm2.root as int, vm2.start(), vp);
            let perm = e & vm::PERM_MASK;
            sv39::lemma_rights(e);
            sv39::lemma_leaf_pte(uvm::frame(m2, child, vp) as u64, perm);
        }
    }
}

/// Nothing changed but pages of the address space `u` and pages that were free.
pub open spec fn confined_to(vm1: Vm, vm2: Vm, u: int) -> bool {
    forall|a: int|
        !uvm::owns(vm1.mem@, u, sv39::page_of(a)) && !vm1.kmem.pages().contains(sv39::page_of(a))
            ==> #[trigger] vm2.mem@[a] == vm1.mem@[a]
}

/// A copy to a process's memory stays in it.
pub proof fn lemma_copied_confined(vm1: Vm, vm2: Vm, root: int, ptr: u64, bytes: Seq<u8>)
    requires
        vm1.wf(),
        vm1.root != 0,
        uvm::space(vm1, root),
        syscall::copied_out(vm1, vm2, root, ptr, bytes),
    ensures
        confined_to(vm1, vm2, root),
{
    let n = bytes.len() as int;
    let m = vm1.mem@;
    if usercopy::user_range(m, root, ptr, n, true) {
        assert forall|a: int|
            !uvm::owns(m, root, sv39::page_of(a)) && !vm1.kmem.pages().contains(
                sv39::page_of(a),
            ) implies #[trigger] vm2.mem@[a] == m[a] by {
            let p = sv39::page_of(a);
            if usercopy::range_frame(m, root, ptr as int, n, p) {
                let vp = choose|vp: int| #[trigger]
                    usercopy::in_range(ptr as int, n, vp) && uvm::frame(m, root, vp) == p;
                assert(sv39::page_idx(vp));
                usercopy::lemma_access_private(vm1, root, vp, true);
            }
        }
    }
}

/// A syscall changes no memory but the caller's own and pages that were free.
#[verifier::spinoff_prover]
proof fn lemma_syscall_confined(
    k1: Kernel,
    k2: Kernel,
    f1: TrapFrame,
    f2: TrapFrame,
    kstack: u64,
    act: Action,
)
    requires
        k1.wf(),
        uproc::user_calls(k1.sched),
        uvm::space(k1.vm, syscall::caller_root(k1)),
        syscall::dispatched(k1, k2, f1, f2, kstack, act),
    ensures
        confined_to(k1.vm, k2.vm, syscall::caller_root(k1)),
{
    let root = syscall::caller_root(k1);
    if f1.a7 == syscall::SYS_READ {
        let bytes = syscall::read_bytes(k1.console.pending(), f1.a1);
        if f1.a1 != 0 && k1.console.pending().len() != 0 {
            lemma_copied_confined(k1.vm, k2.vm, root, f1.a0, bytes);
        }
    } else if f1.a7 == syscall::SYS_UNAME {
        lemma_copied_confined(k1.vm, k2.vm, root, f1.a0, syscall::uname_bytes(f1.a1));
    } else if f1.a7 == syscall::SYS_FREAD {
        let e = proc::fd_entry(k1.sched.running()->0, f1.a0);
        if e is Some && f1.a2 != 0 {
            let bytes = syscall::fread_bytes(k1.fs.files(), e->0, f1.a2);
            lemma_copied_confined(k1.vm, k2.vm, root, f1.a1, bytes);
        }
    }
}

/// A trap taken while a process runs changes no memory but the process's own
/// and pages that were free: neither the kernel's image, heap and page tables
/// nor any other process is touched.
#[verifier::spinoff_prover]
pub proof fn lemma_trap_confined(
    k1: Kernel,
    k2: Kernel,
    f1: TrapFrame,
    f2: TrapFrame,
    cause: u64,
    stval: u64,
    time: u64,
    kstack: u64,
    act: TrapAction,
)
    requires
        k1.wf(),
        uproc::user_calls(k1.sched),
        trap::trapped(k1, k2, f1, f2, cause, stval, time, kstack, act),
    ensures
        confined_to(k1.vm, k2.vm, syscall::caller_root(k1)),
{
    let c = k1.sched.current->0 as int;
    let root = syscall::caller_root(k1);
    assert(proc::at(k1.sched.procs@, c) == k1.sched.running());
    assert(uproc::table_at(k1.sched.procs@, c) == root);
    uproc::lemma_table(k1.vm, k1.sched.procs@, c);
    let code = cause & !riscv::SCAUSE_INTERRUPT;
    if cause & riscv::SCAUSE_INTERRUPT != 0 {
    } else if code == trap::EXC_BREAKPOINT {
    } else if code == trap::EXC_ECALL_USER {
        if let TrapAction::Syscall(a) = act {
            lemma_syscall_confined(k1, k2, f1, f2, kstack, a);
        }
    } else if act is Retry {
        assert forall|a: int|
            !uvm::owns(k1.vm.mem@, root, sv39::page_of(a)) && !k1.vm.kmem.pages().contains(
                sv39::page_of(a),
            ) implies #[trigger] k2.vm.mem@[a] == k1.vm.mem@[a] by {
            assert(uvm::untouched(k1.vm.mem@, root, sv39::page_of(a)));
        }
    }
}

} // verus!
