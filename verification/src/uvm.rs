//! Per-process address spaces.
//!
//! Each user process gets its own root table. The kernel occupies top-level
//! slots 0 (devices and low physical memory) and 2 (DRAM at 2 GiB); those
//! entries are copied into every process table, so the kernel map is
//! reachable with the process's `satp` active, which is what lets a trap from
//! user mode run kernel code without first swapping page tables. Slot 1 (the
//! GiB from 0x4000_0000) is left for user mappings, so a process's private
//! code, heap and stack live in a subtree the kernel never shares.
use vstd::prelude::*;

use crate::kalloc;
use crate::kalloc::FreeList;
use crate::memlayout;
use crate::memlayout::PAGE_SIZE;
use crate::physmem;
use crate::physmem::Memory;
use crate::riscv::Hart;
use crate::sv39;
use crate::vm;
use crate::vm::{Vm, PERM_MASK, PTE_U, ROOT_SPAN};

verus! {

/// Base virtual address of a user program's code.
pub const USER_TEXT: u64 = 0x4000_0000;

/// One past the top of a user program's stack (grows down from here).
pub const USER_STACK_TOP: u64 = 0x4100_0000;

/// Bottom of a user program's heap.
pub const USER_HEAP_BASE: u64 = 0x4200_0000;

/// One past the highest address a user program's heap may reach.
pub const USER_HEAP_MAX: u64 = 0x4300_0000;

// --- The model ---------------------------------------------------------------

/// Is virtual page `vp` in the user slot?
pub open spec fn user_page(vp: int) -> bool {
    0x4_0000 <= vp < 0x8_0000
}

/// Is the `g`-th group of 512 virtual pages in the user slot?
pub open spec fn user_group(g: int) -> bool {
    512 <= g < 1024
}

/// The physical page behind virtual page `vp`, or -1 where it is not mapped.
pub open spec fn frame(m: Map<int, u64>, u: int, vp: int) -> int {
    sv39::target(sv39::leaf(m, u, vp))
}

/// `u` is the root of a process page table. It shares every root entry but
/// the user slot's with the kernel table `kroot`. Its own tables and the
/// frames it maps come from the page allocator; no page serves twice, and
/// every user mapping carries the U bit.
#[verifier::opaque]
pub open spec fn user_table(m: Map<int, u64>, u: int, kroot: int, start: int) -> bool {
    &&& sv39::tree(m, u)
    &&& kalloc::managed(start, u)
    &&& u != kroot
    &&& forall|i: int|
        sv39::root_idx(i) && i != 1 ==> #[trigger] sv39::l1(m, u, i) == sv39::l1(m, kroot, i)
    &&& sv39::l1(m, u, 1) >= 0 ==> kalloc::managed(start, sv39::l1(m, u, 1)) && sv39::l1(m, u, 1)
        != kroot
    &&& forall|g: int|
        user_group(g) && #[trigger] sv39::l0(m, u, g) >= 0 ==> kalloc::managed(
            start,
            sv39::l0(m, u, g),
        ) && sv39::l0(m, u, g) != kroot
    &&& forall|vp: int|
        user_page(vp) && #[trigger] frame(m, u, vp) >= 0 ==> kalloc::managed(
            start,
            frame(m, u, vp),
        ) && frame(m, u, vp) != kroot && sv39::off_tables(m, u, frame(m, u, vp)) && sv39::leaf(
            m,
            u,
            vp,
        ) & PTE_U != 0
    &&& forall|vp: int, q: int|
        #![trigger frame(m, u, vp), frame(m, u, q)]
        user_page(vp) && user_page(q) && vp != q && frame(m, u, vp) >= 0 ==> frame(m, u, vp)
            != frame(m, u, q)
}

/// Is the page at `p` private to the address space `u`: its root, a table of
/// its user slot or a frame mapped there?
#[verifier::opaque]
pub open spec fn owns(m: Map<int, u64>, u: int, p: int) -> bool {
    &&& p >= 0
    &&& {
        ||| p == u
        ||| p == sv39::l1(m, u, 1)
        ||| exists|g: int| user_group(g) && p == #[trigger] sv39::l0(m, u, g)
        ||| exists|vp: int| user_page(vp) && p == #[trigger] frame(m, u, vp)
    }
}

/// What a user table says of one of its pages.
pub proof fn lemma_user_page(m: Map<int, u64>, u: int, kroot: int, start: int, vp: int)
    requires
        user_table(m, u, kroot, start),
        user_page(vp),
        frame(m, u, vp) >= 0,
    ensures
        kalloc::managed(start, frame(m, u, vp)),
        frame(m, u, vp) != kroot,
        frame(m, u, vp) != u,
        sv39::off_tables(m, u, frame(m, u, vp)),
        sv39::leaf(m, u, vp) & PTE_U != 0,
        owns(m, u, frame(m, u, vp)),
        forall|q: int|
            user_page(q) && q != vp ==> #[trigger] frame(m, u, q) != frame(m, u, vp),
{
    reveal(user_table);
    reveal(owns);
}

/// Outside the user slot a user table maps what the kernel's maps.
pub proof fn lemma_shared(m: Map<int, u64>, u: int, kroot: int, start: int)
    requires
        user_table(m, u, kroot, start),
    ensures
        sv39::tree(m, u),
        kalloc::managed(start, u),
        u != kroot,
        owns(m, u, u),
        forall|i: int|
            sv39::root_idx(i) && i != 1 ==> #[trigger] sv39::l1(m, u, i) == sv39::l1(m, kroot, i),
        forall|g: int|
            sv39::group_idx(g) && !user_group(g) ==> #[trigger] sv39::l0(m, u, g) == sv39::l0(
                m,
                kroot,
                g,
            ),
        forall|vp: int|
            sv39::page_idx(vp) && !user_page(vp) ==> #[trigger] sv39::leaf(m, u, vp) == sv39::leaf(
                m,
                kroot,
                vp,
            ),
{
    reveal(user_table);
    reveal(owns);
    assert forall|g: int| sv39::group_idx(g) && !user_group(g) implies #[trigger] sv39::l0(m, u, g)
        == sv39::l0(m, kroot, g) by {
        sv39::lemma_l0(m, u, g);
        sv39::lemma_l0(m, kroot, g);
        assert(sv39::root_idx(g / 512) && g / 512 != 1);
        assert(sv39::l1(m, u, g / 512) == sv39::l1(m, kroot, g / 512));
    }
    assert forall|vp: int| sv39::page_idx(vp) && !user_page(vp) implies #[trigger] sv39::leaf(
        m,
        u,
        vp,
    ) == sv39::leaf(m, kroot, vp) by {
        sv39::lemma_leaf(m, u, vp);
        sv39::lemma_leaf(m, kroot, vp);
        assert(sv39::group_idx(vp / 512) && !user_group(vp / 512));
        assert(sv39::l0(m, u, vp / 512) == sv39::l0(m, kroot, vp / 512));
    }
}

/// A private page comes from the allocator and is no table of the kernel's.
pub proof fn lemma_owned(m: Map<int, u64>, u: int, kroot: int, start: int, p: int)
    requires
        user_table(m, u, kroot, start),
        sv39::l1(m, kroot, 1) == -1,
        owns(m, u, p),
    ensures
        kalloc::managed(start, p),
        p != kroot,
        sv39::off_tables(m, kroot, p),
{
    lemma_shared(m, u, kroot, start);
    assert(kalloc::managed(start, p) && p != kroot) by {
        reveal(user_table);
        reveal(owns);
    }
    assert forall|i: int| sv39::root_idx(i) implies #[trigger] sv39::l1(m, kroot, i) != p by {
        if i != 1 {
            assert(sv39::l1(m, u, i) == sv39::l1(m, kroot, i));
            lemma_not_shared1(m, u, kroot, start, p, i);
        }
    }
    assert forall|g: int| sv39::group_idx(g) implies #[trigger] sv39::l0(m, kroot, g) != p by {
        if user_group(g) {
            sv39::lemma_l0(m, kroot, g);
            assert(g / 512 == 1);
        } else {
            assert(sv39::l0(m, u, g) == sv39::l0(m, kroot, g));
            lemma_not_shared0(m, u, kroot, start, p, g);
        }
    }
}

proof fn lemma_not_shared1(m: Map<int, u64>, u: int, kroot: int, start: int, p: int, i: int)
    requires
        user_table(m, u, kroot, start),
        owns(m, u, p),
        sv39::root_idx(i),
        i != 1,
    ensures
        sv39::l1(m, u, i) != p,
{
    reveal(user_table);
    reveal(owns);
    reveal(sv39::tree);
}

proof fn lemma_not_shared0(m: Map<int, u64>, u: int, kroot: int, start: int, p: int, g: int)
    requires
        user_table(m, u, kroot, start),
        owns(m, u, p),
        sv39::group_idx(g),
        !user_group(g),
    ensures
        sv39::l0(m, u, g) != p,
{
    reveal(user_table);
    reveal(owns);
    reveal(sv39::tree);
}

/// Every table of an address space is its own or the kernel's.
pub proof fn lemma_tables_of(m: Map<int, u64>, u: int, kroot: int, start: int, p: int)
    requires
        user_table(m, u, kroot, start),
        p >= 0,
        !sv39::off_tables(m, u, p),
    ensures
        owns(m, u, p) || !sv39::off_tables(m, kroot, p),
{
    lemma_shared(m, u, kroot, start);
    if p != u {
        if exists|i: int| sv39::root_idx(i) && p == #[trigger] sv39::l1(m, u, i) {
            let i = choose|i: int| sv39::root_idx(i) && p == #[trigger] sv39::l1(m, u, i);
            if i == 1 {
                reveal(owns);
            } else {
                assert(sv39::l1(m, kroot, i) == p);
            }
        } else {
            let g = choose|g: int| sv39::group_idx(g) && p == #[trigger] sv39::l0(m, u, g);
            if user_group(g) {
                reveal(owns);
            } else {
                assert(sv39::l0(m, kroot, g) == p);
            }
        }
    }
}

/// A change of memory that leaves the tables alone leaves the address space
/// as it was.
pub proof fn lemma_user_frame(m: Map<int, u64>, m2: Map<int, u64>, u: int, kroot: int, start: int)
    requires
        user_table(m, u, kroot, start),
        sv39::tree(m, kroot),
        forall|a: int|
            !sv39::off_tables(m, u, sv39::page_of(a)) || !sv39::off_tables(
                m,
                kroot,
                sv39::page_of(a),
            ) ==> #[trigger] m2[a] == m[a],
    ensures
        user_table(m2, u, kroot, start),
        forall|p: int| #[trigger] owns(m2, u, p) <==> owns(m, u, p),
        sv39::same_tree(m, m2, u),
{
    reveal(user_table);
    reveal(owns);
    sv39::lemma_frame(m, m2, u);
    sv39::lemma_frame(m, m2, kroot);
    assert forall|vp: int| user_page(vp) implies #[trigger] frame(m2, u, vp) == frame(m, u, vp) by {
        assert(sv39::page_idx(vp));
        assert(sv39::leaf(m2, u, vp) == sv39::leaf(m, u, vp));
    }
    assert forall|g: int| user_group(g) implies #[trigger] sv39::l0(m2, u, g) == sv39::l0(m, u, g) by {
        assert(sv39::group_idx(g));
    }
    assert(sv39::root_idx(1));
    assert forall|p: int| #[trigger] owns(m2, u, p) <==> owns(m, u, p) by {
        if owns(m2, u, p) {
            if exists|g: int| user_group(g) && p == #[trigger] sv39::l0(m2, u, g) {
                let g = choose|g: int| user_group(g) && p == #[trigger] sv39::l0(m2, u, g);
                assert(p == sv39::l0(m, u, g));
            }
            if exists|vp: int| user_page(vp) && p == #[trigger] frame(m2, u, vp) {
                let vp = choose|vp: int| user_page(vp) && p == #[trigger] frame(m2, u, vp);
                assert(p == frame(m, u, vp));
            }
        }
        if owns(m, u, p) {
            if exists|g: int| user_group(g) && p == #[trigger] sv39::l0(m, u, g) {
                let g = choose|g: int| user_group(g) && p == #[trigger] sv39::l0(m, u, g);
                assert(p == sv39::l0(m2, u, g));
            }
            if exists|vp: int| user_page(vp) && p == #[trigger] frame(m, u, vp) {
                let vp = choose|vp: int| user_page(vp) && p == #[trigger] frame(m, u, vp);
                assert(p == frame(m2, u, vp));
            }
        }
    }
}

/// A change of memory that touches neither the private pages of an address
/// space nor the kernel's tables leaves that address space as it was, down to
/// the last byte.
pub proof fn lemma_user_keep(m: Map<int, u64>, m2: Map<int, u64>, u: int, kroot: int, start: int)
    requires
        user_table(m, u, kroot, start),
        sv39::tree(m, kroot),
        forall|a: int|
            owns(m, u, sv39::page_of(a)) || !sv39::off_tables(m, kroot, sv39::page_of(a))
                ==> #[trigger] m2[a] == m[a],
    ensures
        user_table(m2, u, kroot, start),
        forall|p: int| #[trigger] owns(m2, u, p) <==> owns(m, u, p),
        sv39::same_tree(m, m2, u),
{
    assert forall|a: int|
        !sv39::off_tables(m, u, sv39::page_of(a)) || !sv39::off_tables(
            m,
            kroot,
            sv39::page_of(a),
        ) implies #[trigger] m2[a] == m[a] by {
        if sv39::off_tables(m, kroot, sv39::page_of(a)) {
            lemma_table_addr(m, u, kroot, start, a);
            lemma_tables_of(m, u, kroot, start, sv39::page_of(a));
        }
    }
    lemma_user_frame(m, m2, u, kroot, start);
}

proof fn lemma_table_addr(m: Map<int, u64>, u: int, kroot: int, start: int, a: int)
    requires
        user_table(m, u, kroot, start),
        !sv39::off_tables(m, u, sv39::page_of(a)),
    ensures
        sv39::page_of(a) >= 0,
{
    reveal(user_table);
    reveal(sv39::tree);
    reveal(sv39::l1);
    reveal(sv39::l0);
    reveal(sv39::page_of);
}

// --- Building an address space -----------------------------------------------

/// A root page with the same entries as another root leads to the same
/// tables.
proof fn lemma_copied_root(m: Map<int, u64>, u: int, kroot: int)
    requires
        memlayout::dram_page(u),
        sv39::tree(m, kroot),
        sv39::off_tables(m, kroot, u),
        forall|i: int| sv39::root_idx(i) ==> #[trigger] sv39::ent(m, u, i) == sv39::ent(m, kroot, i),
    ensures
        sv39::tree(m, u),
        forall|i: int| sv39::root_idx(i) ==> #[trigger] sv39::l1(m, u, i) == sv39::l1(m, kroot, i),
        forall|g: int| sv39::group_idx(g) ==> #[trigger] sv39::l0(m, u, g) == sv39::l0(m, kroot, g),
        forall|vp: int|
            sv39::page_idx(vp) ==> #[trigger] sv39::leaf(m, u, vp) == sv39::leaf(m, kroot, vp),
{
    assert forall|i: int| sv39::root_idx(i) implies #[trigger] sv39::l1(m, u, i) == sv39::l1(
        m,
        kroot,
        i,
    ) by {
        sv39::lemma_l1(m, u, i);
        sv39::lemma_l1(m, kroot, i);
        assert(sv39::ent(m, u, i) == sv39::ent(m, kroot, i));
    }
    assert forall|g: int| sv39::group_idx(g) implies #[trigger] sv39::l0(m, u, g) == sv39::l0(
        m,
        kroot,
        g,
    ) by {
        sv39::lemma_l0(m, u, g);
        sv39::lemma_l0(m, kroot, g);
        assert(sv39::root_idx(g / 512));
        assert(sv39::l1(m, u, g / 512) == sv39::l1(m, kroot, g / 512));
    }
    assert forall|vp: int| sv39::page_idx(vp) implies #[trigger] sv39::leaf(m, u, vp) == sv39::leaf(
        m,
        kroot,
        vp,
    ) by {
        sv39::lemma_leaf(m, u, vp);
        sv39::lemma_leaf(m, kroot, vp);
        assert(sv39::group_idx(vp / 512));
        assert(sv39::l0(m, u, vp / 512) == sv39::l0(m, kroot, vp / 512));
    }
    reveal(sv39::tree);
}

/// The user slot of a table without a level-1 table there is empty.
pub proof fn lemma_empty_slot(m: Map<int, u64>, u: int)
    requires
        sv39::l1(m, u, 1) == -1,
    ensures
        forall|g: int| user_group(g) ==> #[trigger] sv39::l0(m, u, g) == -1,
        forall|vp: int| user_page(vp) ==> #[trigger] sv39::leaf(m, u, vp) == 0,
        forall|vp: int| user_page(vp) ==> #[trigger] frame(m, u, vp) == -1,
        forall|p: int| #[trigger] owns(m, u, p) <==> p == u && p >= 0,
{
    reveal(owns);
    sv39::lemma_table_pte(0);
    assert forall|g: int| user_group(g) implies #[trigger] sv39::l0(m, u, g) == -1 by {
        sv39::lemma_l0(m, u, g);
        assert(g / 512 == 1);
    }
    assert forall|vp: int| user_page(vp) implies #[trigger] sv39::leaf(m, u, vp) == 0 by {
        sv39::lemma_leaf(m, u, vp);
        assert(user_group(vp / 512));
        assert(sv39::l0(m, u, vp / 512) == -1);
    }
    assert forall|vp: int| user_page(vp) implies #[trigger] frame(m, u, vp) == -1 by {
        assert(sv39::leaf(m, u, vp) == 0);
    }
}

/// A change of memory off the kernel's tables and off the free pages' link
/// words keeps the virtual-memory subsystem sound, for any list of free pages
/// whose own links are in place and which holds no kernel table.
pub proof fn lemma_kernel_keep(vm1: Vm, vm2: Vm)
    requires
        vm1.wf(),
        vm1.root != 0,
        vm2.image == vm1.image,
        vm2.root == vm1.root,
        vm2.mem.wf(),
        vm2.kmem.wf(vm2.mem@),
        vm2.kmem.start() == vm1.kmem.start(),
        forall|a: int|
            !sv39::off_tables(vm1.mem@, vm1.root as int, sv39::page_of(a))
                ==> #[trigger] vm2.mem@[a] == vm1.mem@[a],
        forall|p: int| #[trigger]
            vm2.kmem.pages().contains(p) ==> sv39::off_tables(vm1.mem@, vm1.root as int, p),
    ensures
        vm2.wf(),
        forall|p: int| #[trigger]
            sv39::off_tables(vm2.mem@, vm1.root as int, p) <==> sv39::off_tables(
                vm1.mem@,
                vm1.root as int,
                p,
            ),
{
    sv39::lemma_frame(vm1.mem@, vm2.mem@, vm1.root as int);
    assert(sv39::root_idx(1));
    assert(sv39::l1(vm2.mem@, vm1.root as int, 1) == sv39::l1(vm1.mem@, vm1.root as int, 1));
    vm::lemma_kernel_same(vm1.mem@, vm2.mem@, vm1.root as int, vm1.image);
}

/// Create a fresh process page table that shares the kernel mapping. User
/// mappings added later land in the private slot-1 subtree.
#[verifier::rlimit(60)]
pub fn make_user_table(vm: &mut Vm) -> (u: u64)
    requires
        old(vm).wf(),
        old(vm).root != 0,
        old(vm).kmem.pages().len() >= 1,
    ensures
        final(vm).wf(),
        final(vm).image == old(vm).image,
        final(vm).root == old(vm).root,
        u == old(vm).kmem.pages()[0],
        final(vm).kmem.pages() == old(vm).kmem.pages().drop_first(),
        user_table(final(vm).mem@, u as int, old(vm).root as int, old(vm).start()),
        forall|p: int| #[trigger] owns(final(vm).mem@, u as int, p) <==> p == u,
        sv39::l1(final(vm).mem@, u as int, 1) == -1,
        forall|vp: int|
            sv39::page_idx(vp) ==> #[trigger] sv39::leaf(final(vm).mem@, u as int, vp)
                == vm::kernel_leaf(old(vm).image, vp),
        forall|a: int|
            sv39::page_of(a) != u ==> #[trigger] final(vm).mem@[a] == old(vm).mem@[a],
{
    let ghost vm0 = *vm;
    let ghost pages = vm.kmem.pages();
    let u: u64 = kalloc::alloc_page(&mut vm.kmem, &mut vm.mem).unwrap();
    let kroot: u64 = vm.root;
    let ghost kr = kroot as int;
    let ghost m0 = vm0.mem@;
    proof {
        assert(sv39::off_tables(m0, kr, u as int));
        sv39::lemma_tree(m0, kr, 0, 0);
        assert forall|a: int| sv39::page_of(a) != u implies #[trigger] vm.mem@[a] == m0[a] by {
            sv39::lemma_off_page(u as int, a);
        }
    }
    let ghost fl = vm.kmem;
    // Copy all top-level entries; the kernel's are shared, and slot 1 is
    // invalid in the kernel table, so user mappings allocate a fresh subtree
    // there rather than touching anything shared.
    let mut i: u64 = 0;
    while i < 512
        invariant
            i <= 512,
            vm.mem.wf(),
            vm.kmem == fl,
            fl.wf(vm.mem@),
            !fl.pages().contains(u as int),
            vm.image == vm0.image,
            vm.root == vm0.root,
            vm.root == kroot,
            kr == kroot,
            memlayout::dram_page(u as int),
            memlayout::dram_page(kr),
            u != kr,
            m0 == vm0.mem@,
            forall|a: int| sv39::page_of(a) != u ==> #[trigger] vm.mem@[a] == m0[a],
            forall|k: int| 0 <= k < i ==> #[trigger] sv39::ent(vm.mem@, u as int, k) == sv39::ent(
                m0,
                kr,
                k,
            ),
        decreases 512 - i,
    {
        let ghost m1 = vm.mem@;
        let e: u64 = vm.mem.read(kroot + 8 * i);
        vm.mem.write(u + 8 * i, e);
        proof {
            sv39::lemma_page_of(kr, 8 * i as int);
            sv39::lemma_page_of(u as int, 8 * i as int);
            assert forall|p: int| #[trigger] fl.pages().contains(p) implies vm.mem@[p] == m1[p] by {
                kalloc::lemma_pages(fl, m1);
                if p == u + 8 * i {
                    assert(p == u);
                }
            }
            kalloc::lemma_frame(fl, m1, vm.mem@);
            assert(e == sv39::ent(m0, kr, i as int));
            assert forall|k: int| 0 <= k < i + 1 implies #[trigger] sv39::ent(vm.mem@, u as int, k)
                == sv39::ent(m0, kr, k) by {
                if k < i {
                    assert(sv39::ent(m1, u as int, k) == sv39::ent(m0, kr, k));
                }
            }
        }
        i = i + 1;
    }
    proof {
        let m = vm.mem@;
        assert forall|p: int| #[trigger] vm.kmem.pages().contains(p) implies sv39::off_tables(
            m0,
            kr,
            p,
        ) by {
            let k = vm.kmem.pages().index_of(p);
            assert(pages[k + 1] == p);
            assert(pages.contains(p));
        }
        lemma_kernel_keep(vm0, *vm);
        assert forall|k: int| sv39::root_idx(k) implies #[trigger] sv39::ent(m, u as int, k)
            == sv39::ent(m, kr, k) by {
            assert(sv39::ent(m, u as int, k) == sv39::ent(m0, kr, k));
            sv39::lemma_page_of(kr, 8 * k);
        }
        reveal(vm::kernel_mapped);
        lemma_copied_root(m, u as int, kr);
        assert(sv39::root_idx(1));
        assert(sv39::l1(m, u as int, 1) == -1);
        lemma_empty_slot(m, u as int);
        reveal(user_table);
    }
    u
}

/// No private page of `u` is free.
pub open spec fn held(vm: Vm, u: int) -> bool {
    forall|p: int| #[trigger] vm.kmem.pages().contains(p) ==> !owns(vm.mem@, u, p)
}

/// `u` is an address space of this system, and its pages are not free.
pub open spec fn space(vm: Vm, u: int) -> bool {
    &&& user_table(vm.mem@, u, vm.root as int, vm.start())
    &&& held(vm, u)
}

/// Is the page at `p` none of the tables private to `u`?
pub open spec fn untouched(m: Map<int, u64>, u: int, p: int) -> bool {
    !owns(m, u, p) || sv39::off_tables(m, u, p)
}

/// The page at `f` is out of the free list and nobody's: neither a table of
/// the kernel's nor private to `u`.
pub open spec fn loose(vm: Vm, u: int, f: int) -> bool {
    &&& kalloc::managed(vm.start(), f)
    &&& !vm.kmem.pages().contains(f)
    &&& sv39::off_tables(vm.mem@, vm.root as int, f)
    &&& !owns(vm.mem@, u, f)
}

/// A page private to nobody is no table of `u`.
proof fn lemma_loose_off(m: Map<int, u64>, u: int, kroot: int, start: int, p: int)
    requires
        user_table(m, u, kroot, start),
        p >= 0,
        sv39::off_tables(m, kroot, p),
        !owns(m, u, p),
    ensures
        sv39::off_tables(m, u, p),
        p != kroot,
{
    if !sv39::off_tables(m, u, p) {
        lemma_tables_of(m, u, kroot, start, p);
    }
}

/// Which pages a user table owns once one more page is mapped.
#[verifier::rlimit(60)]
proof fn lemma_user_map(
    m1: Map<int, u64>,
    m2: Map<int, u64>,
    u: int,
    kroot: int,
    start: int,
    vp: int,
    e: u64,
    f: int,
    pages: Seq<int>,
)
    requires
        user_table(m1, u, kroot, start),
        sv39::tree(m2, u),
        vm::mapped_one(m1, m2, u, vp, e, pages),
        forall|i: int|
            sv39::root_idx(i) ==> #[trigger] sv39::l1(m2, kroot, i) == sv39::l1(m1, kroot, i),
        user_page(vp),
        frame(m1, u, vp) < 0,
        sv39::target(e) == f,
        e & PTE_U != 0,
        kalloc::managed(start, f),
        f != kroot,
        !owns(m1, u, f),
        sv39::off_tables(m1, u, f),
        !pages.contains(f),
        forall|p: int| #[trigger]
            pages.contains(p) ==> kalloc::managed(start, p) && p != kroot && !owns(m1, u, p),
    ensures
        user_table(m2, u, kroot, start),
        forall|p: int| #[trigger]
            owns(m2, u, p) <==> owns(m1, u, p) || p == f || p == sv39::l1(m2, u, 1) || p
                == sv39::l0(m2, u, vp / 512),
{
    reveal(user_table);
    assert(vp / ROOT_SPAN as int == 1);
    assert(user_group(vp / 512) && sv39::group_idx(vp / 512) && sv39::root_idx(1));
    assert(sv39::page_idx(vp));
    assert(frame(m2, u, vp) == f);
    assert forall|q: int| user_page(q) && q != vp implies #[trigger] frame(m2, u, q) == frame(
        m1,
        u,
        q,
    ) by {
        assert(sv39::page_idx(q));
        assert(sv39::leaf(m2, u, q) == sv39::leaf(m1, u, q));
    }
    assert(user_table(m2, u, kroot, start)) by {
        assert forall|q: int| user_page(q) && #[trigger] frame(m2, u, q) >= 0 implies kalloc::managed(
            start,
            frame(m2, u, q),
        ) && frame(m2, u, q) != kroot && sv39::off_tables(m2, u, frame(m2, u, q)) && sv39::leaf(
            m2,
            u,
            q,
        ) & PTE_U != 0 by {
            assert(sv39::page_idx(q));
            let p = frame(m2, u, q);
            if q != vp {
                assert(frame(m1, u, q) == p);
                lemma_user_page(m1, u, kroot, start, q);
            }
            lemma_map_off(m1, m2, u, vp, e, pages, p);
        }
        assert forall|g: int| user_group(g) && #[trigger] sv39::l0(m2, u, g) >= 0 implies kalloc::managed(
            start,
            sv39::l0(m2, u, g),
        ) && sv39::l0(m2, u, g) != kroot by {
            assert(sv39::group_idx(g));
        }
        assert forall|q: int, r: int|
            #![trigger frame(m2, u, q), frame(m2, u, r)]
            user_page(q) && user_page(r) && q != r && frame(m2, u, q) >= 0 implies frame(m2, u, q)
            != frame(m2, u, r) by {
            if q != vp && r != vp {
                assert(frame(m1, u, q) != frame(m1, u, r));
            } else if q == vp {
                if frame(m1, u, r) == f {
                    lemma_user_page(m1, u, kroot, start, r);
                }
            } else {
                if frame(m1, u, q) == f {
                    lemma_user_page(m1, u, kroot, start, q);
                }
            }
        }
    }
    assert forall|p: int| #[trigger]
        owns(m2, u, p) <==> owns(m1, u, p) || p == f || p == sv39::l1(m2, u, 1) || p == sv39::l0(
            m2,
            u,
            vp / 512,
        ) by {
        lemma_map_owns(m1, m2, u, vp, e, f, pages, p);
    }
}

proof fn lemma_map_off(
    m1: Map<int, u64>,
    m2: Map<int, u64>,
    u: int,
    vp: int,
    e: u64,
    pages: Seq<int>,
    p: int,
)
    requires
        vm::mapped_one(m1, m2, u, vp, e, pages),
        user_page(vp),
        sv39::off_tables(m1, u, p),
        !pages.contains(p),
    ensures
        sv39::off_tables(m2, u, p),
{
    assert(sv39::group_idx(vp / 512) && sv39::root_idx(vp / ROOT_SPAN as int));
}

proof fn lemma_map_owns(
    m1: Map<int, u64>,
    m2: Map<int, u64>,
    u: int,
    vp: int,
    e: u64,
    f: int,
    pages: Seq<int>,
    p: int,
)
    requires
        vm::mapped_one(m1, m2, u, vp, e, pages),
        user_page(vp),
        frame(m1, u, vp) < 0,
        sv39::target(e) == f,
        f >= 0,
    ensures
        owns(m2, u, p) <==> owns(m1, u, p) || p == f || p == sv39::l1(m2, u, 1) || p == sv39::l0(
            m2,
            u,
            vp / 512,
        ),
{
    reveal(owns);
    assert(vp / ROOT_SPAN as int == 1);
    assert(user_group(vp / 512) && sv39::group_idx(vp / 512) && sv39::root_idx(1));
    assert(sv39::page_idx(vp));
    assert(frame(m2, u, vp) == f);
    if owns(m2, u, p) {
        if exists|g: int| user_group(g) && p == #[trigger] sv39::l0(m2, u, g) {
            let g = choose|g: int| user_group(g) && p == #[trigger] sv39::l0(m2, u, g);
            assert(sv39::group_idx(g));
            if g != vp / 512 {
                assert(p == sv39::l0(m1, u, g));
            }
        }
        if exists|q: int| user_page(q) && p == #[trigger] frame(m2, u, q) {
            let q = choose|q: int| user_page(q) && p == #[trigger] frame(m2, u, q);
            assert(sv39::page_idx(q));
            if q != vp {
                assert(sv39::leaf(m2, u, q) == sv39::leaf(m1, u, q));
                assert(p == frame(m1, u, q));
            }
        }
    }
    if owns(m1, u, p) {
        if exists|g: int| user_group(g) && p == #[trigger] sv39::l0(m1, u, g) {
            let g = choose|g: int| user_group(g) && p == #[trigger] sv39::l0(m1, u, g);
            assert(sv39::group_idx(g));
            assert(p == sv39::l0(m2, u, g));
        }
        if exists|q: int| user_page(q) && p == #[trigger] frame(m1, u, q) {
            let q = choose|q: int| user_page(q) && p == #[trigger] frame(m1, u, q);
            assert(sv39::page_idx(q));
            assert(sv39::leaf(m2, u, q) == sv39::leaf(m1, u, q));
            assert(p == frame(m2, u, q));
        }
    }
}

/// The tables that mapping `vp` adds are exactly the pages taken off the
/// free list.
proof fn lemma_taken(
    m1: Map<int, u64>,
    m2: Map<int, u64>,
    u: int,
    vp: int,
    e: u64,
    pages: Seq<int>,
    p: int,
)
    requires
        vm::mapped_one(m1, m2, u, vp, e, pages),
        sv39::tree(m2, u),
        user_page(vp),
        pages.no_duplicates(),
        vm::missing(m1, u, vp) <= pages.len(),
        vm::unlinked(pages.skip(vm::missing(m1, u, vp) as int), m2, u),
        sv39::l1(m1, u, 1) >= 0 ==> owns(m1, u, sv39::l1(m1, u, 1)),
        sv39::l0(m1, u, vp / 512) >= 0 ==> owns(m1, u, sv39::l0(m1, u, vp / 512)),
    ensures
        owns(m1, u, p) || p == sv39::l1(m2, u, 1) || p == sv39::l0(m2, u, vp / 512) <==> owns(
            m1,
            u,
            p,
        ) || (pages.contains(p) && !pages.skip(vm::missing(m1, u, vp) as int).contains(p)),
{
    let n = vm::missing(m1, u, vp) as int;
    let rest = pages.skip(n);
    let t1 = sv39::l1(m2, u, 1);
    let t0 = sv39::l0(m2, u, vp / 512);
    assert(vp / ROOT_SPAN as int == 1);
    assert(sv39::group_idx(vp / 512) && sv39::root_idx(1));
    sv39::lemma_tree(m2, u, 1, vp / 512);
    assert(t1 != t0);
    assert(!rest.contains(t1));
    assert(!rest.contains(t0));
    assert forall|k: int| n <= k < pages.len() implies #[trigger] rest.contains(pages[k]) by {
        assert(rest[k - n] == pages[k]);
    }
    // A page taken off the list is one of the first `n`.
    if sv39::l1(m1, u, 1) < 0 {
        let k = pages.index_of(t1);
        assert(k < n);
    }
    if sv39::l0(m1, u, vp / 512) < 0 {
        let k = pages.index_of(t0);
        assert(k < n);
    }
    if pages.contains(p) && !rest.contains(p) {
        let k = pages.index_of(p);
        assert(k < n);
    }
}

/// Map the frame at `f` at `va` in the user slot of `u`, adding the tables
/// that are missing.
#[verifier::rlimit(60)]
pub(crate) fn map_user(vm: &mut Vm, u: u64, va: u64, f: u64, perm: u64)
    requires
        old(vm).wf(),
        old(vm).root != 0,
        space(*old(vm), u as int),
        loose(*old(vm), u as int, f as int),
        va % 4096 == 0,
        user_page(va as int / 4096),
        frame(old(vm).mem@, u as int, va as int / 4096) < 0,
        perm & !PERM_MASK == 0,
        perm & PTE_U != 0,
        vm::missing(old(vm).mem@, u as int, va as int / 4096) <= old(vm).kmem.pages().len(),
    ensures
        final(vm).wf(),
        final(vm).image == old(vm).image,
        final(vm).root == old(vm).root,
        space(*final(vm), u as int),
        final(vm).kmem.pages() == old(vm).kmem.pages().skip(
            vm::missing(old(vm).mem@, u as int, va as int / 4096) as int,
        ),
        forall|p: int| #[trigger]
            owns(final(vm).mem@, u as int, p) <==> owns(old(vm).mem@, u as int, p) || p == f || (
            old(vm).kmem.pages().contains(p) && !final(vm).kmem.pages().contains(p)),
        forall|q: int|
            sv39::page_idx(q) ==> #[trigger] sv39::leaf(final(vm).mem@, u as int, q) == if q
                == va as int / 4096 {
                sv39::leaf_pte(f, perm)
            } else {
                sv39::leaf(old(vm).mem@, u as int, q)
            },
        vm::mapped_one(
            old(vm).mem@,
            final(vm).mem@,
            u as int,
            va as int / 4096,
            sv39::leaf_pte(f, perm),
            old(vm).kmem.pages(),
        ),
        forall|a: int|
            untouched(old(vm).mem@, u as int, sv39::page_of(a))
                && !old(vm).kmem.pages().contains(sv39::page_of(a)) ==> #[trigger] final(vm).mem@[a]
                == old(vm).mem@[a],
{
    let ghost vm0 = *vm;
    let ghost m0 = vm.mem@;
    let ghost ui = u as int;
    let ghost kr = vm.root as int;
    let ghost start = vm.start();
    let ghost vp = va as int / 4096;
    let ghost pages = vm.kmem.pages();
    let ghost e = sv39::leaf_pte(f, perm);
    proof {
        lemma_shared(m0, ui, kr, start);
        kalloc::lemma_pages(vm.kmem, m0);
        assert forall|p: int| #[trigger] pages.contains(p) implies sv39::off_tables(m0, ui, p) by {
            lemma_loose_off(m0, ui, kr, start, p);
        }
        lemma_loose_off(m0, ui, kr, start, f as int);
        sv39::lemma_leaf_pte(f, perm);
        assert(vp / ROOT_SPAN as int == 1);
        assert(user_group(vp / 512) && sv39::group_idx(vp / 512) && sv39::root_idx(1));
        assert(owns(m0, ui, ui) && (sv39::l1(m0, ui, 1) >= 0 ==> owns(m0, ui, sv39::l1(m0, ui, 1)))
            && (sv39::l0(m0, ui, vp / 512) >= 0 ==> owns(m0, ui, sv39::l0(m0, ui, vp / 512)))) by {
            reveal(owns);
        }
    }
    vm::map_page(&mut vm.kmem, &mut vm.mem, u, va, f, perm);
    proof {
        let m2 = vm.mem@;
        let rest = vm.kmem.pages();
        assert forall|p: int| #[trigger] rest.contains(p) implies pages.contains(p)
            && sv39::off_tables(m0, kr, p) by {
            let k = rest.index_of(p);
            assert(pages[k + vm::missing(m0, ui, vp)] == p);
            assert(pages.contains(p));
            assert(vm::unlinked(pages, m0, kr));
        }
        assert forall|a: int| !sv39::off_tables(m0, kr, sv39::page_of(a)) implies #[trigger] m2[a]
            == m0[a] by {
            lemma_map_frame(m0, ui, kr, start, vp, a);
        }
        lemma_kernel_keep(vm0, *vm);
        sv39::lemma_frame(m0, m2, kr);
        lemma_user_map(m0, m2, ui, kr, start, vp, e, f as int, pages);
        assert forall|p: int| #[trigger]
            owns(m2, ui, p) <==> owns(m0, ui, p) || p == f || (pages.contains(p)
                && !rest.contains(p)) by {
            lemma_taken(m0, m2, ui, vp, e, pages, p);
        }
        assert(space(*vm, ui));
        assert forall|a: int|
            untouched(m0, ui, sv39::page_of(a)) && !pages.contains(
                sv39::page_of(a),
            ) implies #[trigger] m2[a] == m0[a] by {
            let p = sv39::page_of(a);
            assert(p != -1) by {
                reveal(sv39::page_of);
            }
            lemma_table_value(m0, ui, vp / 512);
            assert(p != ui);
            assert(p != sv39::l1(m0, ui, 1));
            assert(p != sv39::l0(m0, ui, vp / 512));
        }
    }
}

/// The kernel's tables are not among those that mapping a user page writes.
proof fn lemma_map_frame(m: Map<int, u64>, u: int, kroot: int, start: int, vp: int, a: int)
    requires
        user_table(m, u, kroot, start),
        sv39::l1(m, kroot, 1) == -1,
        user_page(vp),
        !sv39::off_tables(m, kroot, sv39::page_of(a)),
    ensures
        sv39::page_of(a) != u,
        sv39::page_of(a) != sv39::l1(m, u, 1),
        sv39::page_of(a) != sv39::l0(m, u, vp / 512),
{
    let p = sv39::page_of(a);
    assert(p != -1) by {
        reveal(sv39::page_of);
    }
    assert(user_group(vp / 512));
    if p == u || p == sv39::l1(m, u, 1) || p == sv39::l0(m, u, vp / 512) {
        lemma_table_value(m, u, vp / 512);
        lemma_shared(m, u, kroot, start);
        assert(owns(m, u, p)) by {
            reveal(owns);
        }
        lemma_owned(m, u, kroot, start, p);
    }
}

/// A table's address is -1 or not negative.
proof fn lemma_table_value(m: Map<int, u64>, u: int, g: int)
    ensures
        sv39::l1(m, u, 1) >= -1,
        sv39::l0(m, u, g) >= -1,
{
    reveal(sv39::l1);
    reveal(sv39::l0);
}

// --- Tearing an address space down -------------------------------------------

/// Is the page at `p` a frame mapped below virtual page `vlim` or a level-0
/// table below group `glim`?
#[verifier::opaque]
pub open spec fn below(m: Map<int, u64>, u: int, vlim: int, glim: int, p: int) -> bool {
    &&& p >= 0
    &&& {
        ||| exists|vp: int| user_page(vp) && vp < vlim && p == #[trigger] frame(m, u, vp)
        ||| exists|g: int| user_group(g) && g < glim && p == #[trigger] sv39::l0(m, u, g)
    }
}

/// Of the address space `u`, as it was in memory `m0`, exactly the pages
/// below the two limits have gone back to the free list.
spec fn freeing(
    pages0: Seq<int>,
    m0: Map<int, u64>,
    u: int,
    vlim: int,
    glim: int,
    fl: FreeList,
    mem: Memory,
) -> bool {
    &&& mem.wf()
    &&& fl.wf(mem@)
    &&& forall|p: int| #[trigger]
        fl.pages().contains(p) <==> pages0.contains(p) || below(m0, u, vlim, glim, p)
    &&& forall|a: int|
        !below(m0, u, vlim, glim, sv39::page_of(a)) ==> #[trigger] mem@[a] == m0[a]
}

/// One more frame is below the limits once the limit passes it.
proof fn lemma_below_frame(m: Map<int, u64>, u: int, kroot: int, start: int, vp: int, glim: int)
    requires
        user_table(m, u, kroot, start),
        user_page(vp),
    ensures
        frame(m, u, vp) >= 0 ==> !below(m, u, vp, glim, frame(m, u, vp)),
        forall|p: int| #[trigger]
            below(m, u, vp + 1, glim, p) <==> below(m, u, vp, glim, p) || (p == frame(m, u, vp) && p
                >= 0),
{
    reveal(below);
    if frame(m, u, vp) >= 0 {
        lemma_user_page(m, u, kroot, start, vp);
        assert forall|g: int| user_group(g) implies #[trigger] sv39::l0(m, u, g) != frame(
            m,
            u,
            vp,
        ) by {
            assert(sv39::group_idx(g));
        }
    }
    assert forall|p: int| #[trigger]
        below(m, u, vp + 1, glim, p) <==> below(m, u, vp, glim, p) || (p == frame(m, u, vp) && p
            >= 0) by {
        if below(m, u, vp + 1, glim, p) && !below(m, u, vp, glim, p) && p != frame(m, u, vp) {
            if exists|q: int| user_page(q) && q < vp + 1 && p == #[trigger] frame(m, u, q) {
                let q = choose|q: int| user_page(q) && q < vp + 1 && p == #[trigger] frame(m, u, q);
                assert(q < vp);
            }
        }
    }
}

/// One more table is below the limits once the limit passes it.
proof fn lemma_below_table(m: Map<int, u64>, u: int, kroot: int, start: int, g: int, vlim: int)
    requires
        user_table(m, u, kroot, start),
        user_group(g),
    ensures
        sv39::l0(m, u, g) >= 0 ==> !below(m, u, vlim, g, sv39::l0(m, u, g)),
        forall|p: int| #[trigger]
            below(m, u, vlim, g + 1, p) <==> below(m, u, vlim, g, p) || (p == sv39::l0(m, u, g) && p
                >= 0),
{
    reveal(below);
    assert(sv39::group_idx(g));
    if sv39::l0(m, u, g) >= 0 {
        if below(m, u, vlim, g, sv39::l0(m, u, g)) {
            if exists|vp: int|
                user_page(vp) && vp < vlim && sv39::l0(m, u, g) == #[trigger] frame(m, u, vp) {
                let vp = choose|vp: int|
                    user_page(vp) && vp < vlim && sv39::l0(m, u, g) == #[trigger] frame(m, u, vp);
                lemma_user_page(m, u, kroot, start, vp);
            } else {
                let h = choose|h: int|
                    user_group(h) && h < g && sv39::l0(m, u, g) == #[trigger] sv39::l0(m, u, h);
                lemma_shared(m, u, kroot, start);
                assert(sv39::group_idx(h));
                sv39::lemma_tree_distinct0(m, u, g, h);
            }
        }
    }
    assert forall|p: int| #[trigger]
        below(m, u, vlim, g + 1, p) <==> below(m, u, vlim, g, p) || (p == sv39::l0(m, u, g) && p
            >= 0) by {
        if below(m, u, vlim, g + 1, p) && !below(m, u, vlim, g, p) && p != sv39::l0(m, u, g) {
            if exists|h: int| user_group(h) && h < g + 1 && p == #[trigger] sv39::l0(m, u, h) {
                let h = choose|h: int| user_group(h) && h < g + 1 && p == #[trigger] sv39::l0(
                    m,
                    u,
                    h,
                );
                assert(h < g);
            }
        }
    }
}

/// A group without a level-0 table has no frames.
proof fn lemma_below_absent(m: Map<int, u64>, u: int, g: int)
    requires
        user_group(g),
        sv39::l0(m, u, g) < 0,
    ensures
        forall|p: int| #[trigger]
            below(m, u, (g + 1) * 512, g + 1, p) <==> below(m, u, g * 512, g, p),
{
    reveal(below);
    sv39::lemma_table_pte(0);
    assert forall|vp: int| g * 512 <= vp < (g + 1) * 512 implies #[trigger] frame(m, u, vp) == -1 by {
        sv39::lemma_leaf(m, u, vp);
        assert(vp / 512 == g);
    }
    assert forall|p: int| #[trigger]
        below(m, u, (g + 1) * 512, g + 1, p) <==> below(m, u, g * 512, g, p) by {
        if below(m, u, (g + 1) * 512, g + 1, p) {
            if exists|vp: int|
                user_page(vp) && vp < (g + 1) * 512 && p == #[trigger] frame(m, u, vp) {
                let vp = choose|vp: int|
                    user_page(vp) && vp < (g + 1) * 512 && p == #[trigger] frame(m, u, vp);
                assert(vp < g * 512);
            } else {
                let h = choose|h: int| user_group(h) && h < g + 1 && p == #[trigger] sv39::l0(
                    m,
                    u,
                    h,
                );
                assert(h < g);
            }
        }
    }
}

/// Give one page back.
fn release(
    fl: &mut FreeList,
    mem: &mut Memory,
    p: u64,
    Ghost(pages0): Ghost<Seq<int>>,
    Ghost(m0): Ghost<Map<int, u64>>,
    Ghost(u): Ghost<int>,
    Ghost(lim): Ghost<(int, int)>,
    Ghost(next): Ghost<(int, int)>,
)
    requires
        freeing(pages0, m0, u, lim.0, lim.1, *old(fl), *old(mem)),
        kalloc::managed(old(fl).start(), p as int),
        !pages0.contains(p as int),
        !below(m0, u, lim.0, lim.1, p as int),
        forall|q: int| #[trigger]
            below(m0, u, next.0, next.1, q) <==> below(m0, u, lim.0, lim.1, q) || q == p,
    ensures
        freeing(pages0, m0, u, next.0, next.1, *final(fl), *final(mem)),
        final(fl).start() == old(fl).start(),
{
    let ghost pages = fl.pages();
    let ghost m1 = mem@;
    kalloc::free(fl, mem, p);
    proof {
        let all = fl.pages();
        assert forall|q: int| #[trigger]
            all.contains(q) <==> pages0.contains(q) || below(m0, u, next.0, next.1, q) by {
            if all.contains(q) && q != p {
                let k = all.index_of(q);
                assert(pages[k - 1] == q);
                assert(pages.contains(q));
            }
            if pages.contains(q) {
                let k = pages.index_of(q);
                assert(all[k + 1] == q);
            }
            assert(all[0] == p);
        }
        assert forall|a: int|
            !below(m0, u, next.0, next.1, sv39::page_of(a)) implies #[trigger] mem@[a] == m0[a] by {
            assert(sv39::page_of(a) != p);
            sv39::lemma_off_page(p as int, a);
            assert(m1[a] == m0[a]);
        }
    }
}

/// Give back the frames of one group and its level-0 table.
#[verifier::rlimit(60)]
fn free_group(
    fl: &mut FreeList,
    mem: &mut Memory,
    t0: u64,
    Ghost(pages0): Ghost<Seq<int>>,
    Ghost(m0): Ghost<Map<int, u64>>,
    Ghost(u): Ghost<int>,
    Ghost(kr): Ghost<int>,
    Ghost(g): Ghost<int>,
)
    requires
        user_table(m0, u, kr, old(fl).start()),
        forall|p: int| #[trigger] pages0.contains(p) ==> !owns(m0, u, p),
        user_group(g),
        sv39::l0(m0, u, g) == t0,
        freeing(pages0, m0, u, g * 512, g, *old(fl), *old(mem)),
    ensures
        freeing(pages0, m0, u, (g + 1) * 512, g + 1, *final(fl), *final(mem)),
        final(fl).start() == old(fl).start(),
{
    let ghost start = fl.start();
    proof {
        lemma_below_table(m0, u, kr, start, g, g * 512);
        lemma_owns_table(m0, u, kr, start, g);
    }
    let mut j: u64 = 0;
    while j < 512
        invariant
            j <= 512,
            fl.start() == start,
            user_table(m0, u, kr, start),
            forall|p: int| #[trigger] pages0.contains(p) ==> !owns(m0, u, p),
            user_group(g),
            sv39::l0(m0, u, g) == t0,
            memlayout::dram_page(t0 as int),
            freeing(pages0, m0, u, g * 512 + j, g, *fl, *mem),
        decreases 512 - j,
    {
        let ghost vp = g * 512 + j;
        proof {
            assert(user_page(vp) && vp / 512 == g && vp % 512 == j);
            sv39::lemma_leaf(m0, u, vp);
            lemma_below_frame(m0, u, kr, start, vp, g);
            lemma_below_table(m0, u, kr, start, g, vp);
            sv39::lemma_page_of(t0 as int, 8 * j as int);
        }
        let e: u64 = mem.read(t0 + 8 * j);
        assert(e == sv39::leaf(m0, u, vp));
        if vm::entry_valid(e) {
            let f: u64 = vm::pte_to_pa(e);
            proof {
                assert(f == frame(m0, u, vp));
                lemma_user_page(m0, u, kr, start, vp);
            }
            release(
                fl,
                mem,
                f,
                Ghost(pages0),
                Ghost(m0),
                Ghost(u),
                Ghost((vp, g)),
                Ghost((vp + 1, g)),
            );
        }
        j = j + 1;
    }
    proof {
        lemma_below_table(m0, u, kr, start, g, (g + 1) * 512);
    }
    release(
        fl,
        mem,
        t0,
        Ghost(pages0),
        Ghost(m0),
        Ghost(u),
        Ghost(((g + 1) * 512, g)),
        Ghost(((g + 1) * 512, g + 1)),
    );
}

proof fn lemma_owns_table(m: Map<int, u64>, u: int, kroot: int, start: int, g: int)
    requires
        user_table(m, u, kroot, start),
        user_group(g),
        sv39::l0(m, u, g) >= 0,
    ensures
        owns(m, u, sv39::l0(m, u, g)),
        kalloc::managed(start, sv39::l0(m, u, g)),
        sv39::l1(m, u, 1) >= 0,
        owns(m, u, sv39::l1(m, u, 1)),
{
    reveal(owns);
    reveal(user_table);
    sv39::lemma_l0(m, u, g);
    assert(g / 512 == 1);
}

/// The level-1 table of the user slot and the root are the private pages that
/// no limit covers.
proof fn lemma_below_all(m: Map<int, u64>, u: int, kroot: int, start: int)
    requires
        user_table(m, u, kroot, start),
    ensures
        forall|p: int| #[trigger]
            owns(m, u, p) <==> below(m, u, 0x8_0000, 1024, p) || p == u || (p == sv39::l1(m, u, 1)
                && p >= 0),
        forall|p: int| #[trigger] below(m, u, 0x4_0000, 512, p) ==> false,
        !below(m, u, 0x8_0000, 1024, u),
        sv39::l1(m, u, 1) >= 0 ==> !below(m, u, 0x8_0000, 1024, sv39::l1(m, u, 1)) && sv39::l1(
            m,
            u,
            1,
        ) != u && kalloc::managed(start, sv39::l1(m, u, 1)),
{
    reveal(below);
    reveal(owns);
    reveal(user_table);
    reveal(sv39::tree);
    assert(sv39::root_idx(1));
    assert forall|vp: int| user_page(vp) && #[trigger] frame(m, u, vp) >= 0 implies frame(m, u, vp)
        != u && frame(m, u, vp) != sv39::l1(m, u, 1) by {
        lemma_user_page(m, u, kroot, start, vp);
    }
    assert forall|g: int| user_group(g) && #[trigger] sv39::l0(m, u, g) >= 0 implies sv39::l0(
        m,
        u,
        g,
    ) != u && sv39::l0(m, u, g) != sv39::l1(m, u, 1) by {
        assert(sv39::group_idx(g));
    }
}

/// The private pages of `u` but its root are free, and nothing else changed.
spec fn emptied(
    pages0: Seq<int>,
    m0: Map<int, u64>,
    u: int,
    fl: FreeList,
    mem: Memory,
) -> bool {
    &&& mem.wf()
    &&& fl.wf(mem@)
    &&& forall|p: int| #[trigger]
        fl.pages().contains(p) <==> pages0.contains(p) || (owns(m0, u, p) && p != u)
    &&& forall|a: int|
        !owns(m0, u, sv39::page_of(a)) || sv39::page_of(a) == u ==> #[trigger] mem@[a] == m0[a]
}

/// Give back every group under the level-1 table `t1`.
#[verifier::rlimit(40)]
fn free_groups(
    fl: &mut FreeList,
    mem: &mut Memory,
    t1: u64,
    Ghost(pages0): Ghost<Seq<int>>,
    Ghost(m0): Ghost<Map<int, u64>>,
    Ghost(u): Ghost<int>,
    Ghost(kr): Ghost<int>,
)
    requires
        user_table(m0, u, kr, old(fl).start()),
        forall|p: int| #[trigger] pages0.contains(p) ==> !owns(m0, u, p),
        sv39::l1(m0, u, 1) == t1,
        memlayout::dram_page(t1 as int),
        !below(m0, u, 0x8_0000, 1024, t1 as int),
        freeing(pages0, m0, u, 0x4_0000, 512, *old(fl), *old(mem)),
    ensures
        freeing(pages0, m0, u, 0x8_0000, 1024, *final(fl), *final(mem)),
        final(fl).start() == old(fl).start(),
{
    let ghost start = fl.start();
    let mut i: u64 = 0;
    while i < 512
        invariant
            i <= 512,
            user_table(m0, u, kr, start),
            fl.start() == start,
            forall|p: int| #[trigger] pages0.contains(p) ==> !owns(m0, u, p),
            t1 == sv39::l1(m0, u, 1),
            memlayout::dram_page(t1 as int),
            !below(m0, u, 0x8_0000, 1024, t1 as int),
            freeing(pages0, m0, u, (512 + i) * 512, 512 + i, *fl, *mem),
        decreases 512 - i,
    {
        let ghost g = 512 + i;
        proof {
            assert(user_group(g) && sv39::group_idx(g) && g / 512 == 1 && g % 512 == i);
            sv39::lemma_l0(m0, u, g);
            sv39::lemma_page_of(t1 as int, 8 * i as int);
            lemma_below_less(m0, u, (512 + i) * 512, 512 + i, t1 as int);
        }
        let e1: u64 = mem.read(t1 + 8 * i);
        assert(e1 == sv39::ent(m0, t1 as int, i as int));
        if vm::entry_valid(e1) {
            let t0: u64 = vm::pte_to_pa(e1);
            free_group(
                fl,
                mem,
                t0,
                Ghost(pages0),
                Ghost(m0),
                Ghost(u),
                Ghost(kr),
                Ghost(g),
            );
        } else {
            proof {
                lemma_below_absent(m0, u, g);
                assert(freeing(pages0, m0, u, (g + 1) * 512, g + 1, *fl, *mem));
            }
        }
        assert((g + 1) * 512 == (512 + (i + 1)) * 512);
        i = i + 1;
    }
}

/// Give back everything in the user slot, whose level-1 table is `t1`.
fn free_slot(
    fl: &mut FreeList,
    mem: &mut Memory,
    t1: u64,
    Ghost(u): Ghost<int>,
    Ghost(kr): Ghost<int>,
)
    requires
        old(mem).wf(),
        old(fl).wf(old(mem)@),
        user_table(old(mem)@, u, kr, old(fl).start()),
        forall|p: int| #[trigger] old(fl).pages().contains(p) ==> !owns(old(mem)@, u, p),
        sv39::l1(old(mem)@, u, 1) == t1,
    ensures
        emptied(old(fl).pages(), old(mem)@, u, *final(fl), *final(mem)),
        final(fl).start() == old(fl).start(),
{
    let ghost m0 = mem@;
    let ghost pages0 = fl.pages();
    let ghost start = fl.start();
    proof {
        lemma_below_all(m0, u, kr, start);
    }
    free_groups(fl, mem, t1, Ghost(pages0), Ghost(m0), Ghost(u), Ghost(kr));
    proof {
        assert(owns(m0, u, t1 as int));
        assert(!fl.pages().contains(t1 as int));
    }
    let ghost mid = mem@;
    let ghost list = fl.pages();
    kalloc::free(fl, mem, t1);
    proof {
        lemma_pushed(list, t1 as int, fl.pages());
        assert forall|a: int|
            !owns(m0, u, sv39::page_of(a)) || sv39::page_of(a) == u implies #[trigger] mem@[a]
            == m0[a] by {
            sv39::lemma_off_page(t1 as int, a);
            assert(!below(m0, u, 0x8_0000, 1024, sv39::page_of(a)));
            assert(mid[a] == m0[a]);
        }
    }
}

/// Give back everything private to `u`.
fn free_tree(fl: &mut FreeList, mem: &mut Memory, u: u64, Ghost(kr): Ghost<int>)
    requires
        old(mem).wf(),
        old(fl).wf(old(mem)@),
        user_table(old(mem)@, u as int, kr, old(fl).start()),
        forall|p: int| #[trigger] old(fl).pages().contains(p) ==> !owns(old(mem)@, u as int, p),
    ensures
        final(mem).wf(),
        final(fl).wf(final(mem)@),
        final(fl).start() == old(fl).start(),
        forall|p: int| #[trigger]
            final(fl).pages().contains(p) <==> old(fl).pages().contains(p) || owns(
                old(mem)@,
                u as int,
                p,
            ),
        forall|a: int|
            !owns(old(mem)@, u as int, sv39::page_of(a)) ==> #[trigger] final(mem)@[a] == old(
                mem,
            )@[a],
{
    let ghost m0 = mem@;
    let ghost pages0 = fl.pages();
    let ghost ui = u as int;
    assert(kalloc::managed(fl.start(), ui) && owns(m0, ui, ui)) by {
        lemma_shared(m0, ui, kr, fl.start());
    }
    proof {
        sv39::lemma_l1(m0, ui, 1);
    }
    let e2: u64 = mem.read(u + 8);
    assert(e2 == sv39::ent(m0, ui, 1));
    if vm::entry_valid(e2) {
        let t1: u64 = vm::pte_to_pa(e2);
        free_slot(fl, mem, t1, Ghost(ui), Ghost(kr));
    } else {
        proof {
            lemma_empty_slot(m0, ui);
        }
    }
    assert(emptied(pages0, m0, ui, *fl, *mem));
    let ghost mid = mem@;
    let ghost list = fl.pages();
    kalloc::free(fl, mem, u);
    proof {
        lemma_pushed(list, ui, fl.pages());
        assert forall|a: int| !owns(m0, ui, sv39::page_of(a)) implies #[trigger] mem@[a]
            == m0[a] by {
            sv39::lemma_off_page(ui, a);
            assert(mid[a] == m0[a]);
        }
    }
}

/// Once all private pages are free, the rest of the system is as it was.
proof fn lemma_freed(vm1: Vm, vm2: Vm, u: int)
    requires
        vm1.wf(),
        vm1.root != 0,
        space(vm1, u),
        vm2.image == vm1.image,
        vm2.root == vm1.root,
        vm2.mem.wf(),
        vm2.kmem.wf(vm2.mem@),
        vm2.kmem.start() == vm1.kmem.start(),
        forall|p: int| #[trigger]
            vm2.kmem.pages().contains(p) ==> vm1.kmem.pages().contains(p) || owns(vm1.mem@, u, p),
        forall|a: int|
            !owns(vm1.mem@, u, sv39::page_of(a)) ==> #[trigger] vm2.mem@[a] == vm1.mem@[a],
    ensures
        vm2.wf(),
{
    let m0 = vm1.mem@;
    let kr = vm1.root as int;
    assert forall|p: int| #[trigger] vm2.kmem.pages().contains(p) implies sv39::off_tables(
        m0,
        kr,
        p,
    ) by {
        if owns(m0, u, p) {
            lemma_owned(m0, u, kr, vm1.start(), p);
        } else {
            assert(vm1.kmem.pages().contains(p));
        }
    }
    assert forall|a: int| !sv39::off_tables(m0, kr, sv39::page_of(a)) implies #[trigger] vm2.mem@[a]
        == m0[a] by {
        if owns(m0, u, sv39::page_of(a)) {
            lemma_owned(m0, u, kr, vm1.start(), sv39::page_of(a));
        }
    }
    lemma_kernel_keep(vm1, vm2);
}

/// On the kernel's table no process's table is active.
pub proof fn lemma_not_active(vm: Vm, u: u64)
    requires
        vm.wf(),
        vm.root != 0,
        space(vm, u as int),
    ensures
        vm::satp_of(vm.root) != vm::satp_of(u),
{
    lemma_shared(vm.mem@, u as int, vm.root as int, vm.start());
    sv39::lemma_tree(vm.mem@, vm.root as int, 0, 0);
    vm::lemma_satp(vm.root, u);
}

/// Free a process page table: the private slot-1 subtree (its level-1 and
/// level-0 tables and every leaf frame) plus the root page. Shared kernel
/// subtrees are left untouched. The table must not be the active one on any
/// hart.
pub fn free_user_table(vm: &mut Vm, hart: &Hart, u: u64)
    requires
        old(vm).wf(),
        old(vm).root != 0,
        space(*old(vm), u as int),
        hart.satp != vm::satp_of(u),
    ensures
        final(vm).wf(),
        final(vm).image == old(vm).image,
        final(vm).root == old(vm).root,
        forall|p: int| #[trigger]
            final(vm).kmem.pages().contains(p) <==> old(vm).kmem.pages().contains(p) || owns(
                old(vm).mem@,
                u as int,
                p,
            ),
        forall|a: int|
            !owns(old(vm).mem@, u as int, sv39::page_of(a)) ==> #[trigger] final(vm).mem@[a] == old(
                vm,
            ).mem@[a],
{
    let ghost vm0 = *vm;
    let ghost kr = vm.root as int;
    free_tree(&mut vm.kmem, &mut vm.mem, u, Ghost(kr));
    proof {
        lemma_freed(vm0, *vm, u as int);
    }
}

proof fn lemma_below_less(m: Map<int, u64>, u: int, vlim: int, glim: int, p: int)
    requires
        vlim <= 0x8_0000,
        glim <= 1024,
        !below(m, u, 0x8_0000, 1024, p),
    ensures
        !below(m, u, vlim, glim, p),
{
    reveal(below);
}

/// Membership in a list with one page put in front.
pub proof fn lemma_pushed(list: Seq<int>, p: int, all: Seq<int>)
    requires
        all == seq![p] + list,
    ensures
        forall|q: int| #[trigger] all.contains(q) <==> q == p || list.contains(q),
{
    assert forall|q: int| #[trigger] all.contains(q) <==> q == p || list.contains(q) by {
        assert(all[0] == p);
        if all.contains(q) && q != p {
            let k = all.index_of(q);
            assert(list[k - 1] == q);
        }
        if list.contains(q) {
            let k = list.index_of(q);
            assert(all[k + 1] == q);
        }
    }
}

// --- Copying an address space ------------------------------------------------

/// A step that takes pages off the free list and writes only to pages that
/// are neither the kernel's tables nor private to `u` leaves `u` alone.
pub proof fn lemma_step(vm1: Vm, vm2: Vm, u: int)
    requires
        vm1.wf(),
        vm1.root != 0,
        space(vm1, u),
        vm2.image == vm1.image,
        vm2.root == vm1.root,
        vm2.mem.wf(),
        vm2.kmem.wf(vm2.mem@),
        vm2.kmem.start() == vm1.kmem.start(),
        forall|p: int| #[trigger] vm2.kmem.pages().contains(p) ==> vm1.kmem.pages().contains(p),
        forall|a: int|
            owns(vm1.mem@, u, sv39::page_of(a)) || !sv39::off_tables(
                vm1.mem@,
                vm1.root as int,
                sv39::page_of(a),
            ) ==> #[trigger] vm2.mem@[a] == vm1.mem@[a],
    ensures
        vm2.wf(),
        space(vm2, u),
        sv39::same_tree(vm1.mem@, vm2.mem@, u),
        forall|p: int| #[trigger] owns(vm2.mem@, u, p) <==> owns(vm1.mem@, u, p),
        forall|p: int| #[trigger]
            sv39::off_tables(vm2.mem@, vm1.root as int, p) <==> sv39::off_tables(
                vm1.mem@,
                vm1.root as int,
                p,
            ),
        forall|p: int| #[trigger]
            sv39::off_tables(vm2.mem@, u, p) <==> sv39::off_tables(vm1.mem@, u, p),
{
    lemma_kernel_keep(vm1, vm2);
    lemma_user_keep(vm1.mem@, vm2.mem@, u, vm1.root as int, vm1.start());
    assert forall|p: int| #[trigger] sv39::off_tables(vm2.mem@, u, p) <==> sv39::off_tables(
        vm1.mem@,
        u,
        p,
    ) by {
        if sv39::off_tables(vm1.mem@, u, p) {
            sv39::lemma_off_tables(vm1.mem@, vm2.mem@, u, p);
        }
        if sv39::off_tables(vm2.mem@, u, p) {
            sv39::lemma_off_tables(vm2.mem@, vm1.mem@, u, p);
        }
    }
}

/// The page at `f` has been taken off the free list for the address space
/// `u`, and no other page has changed.
pub open spec fn got_page(vm0: Vm, vm: Vm, u: int, f: int) -> bool {
    &&& vm.wf()
    &&& vm.image == vm0.image
    &&& vm.root == vm0.root
    &&& vm0.kmem.pages().len() >= 1
    &&& f == vm0.kmem.pages()[0]
    &&& vm.kmem.pages() == vm0.kmem.pages().drop_first()
    &&& forall|p: int| #[trigger]
        vm0.kmem.pages().contains(p) <==> vm.kmem.pages().contains(p) || p == f
    &&& space(vm, u)
    &&& loose(vm, u, f)
    &&& sv39::same_tree(vm0.mem@, vm.mem@, u)
    &&& forall|p: int| #[trigger] owns(vm.mem@, u, p) <==> owns(vm0.mem@, u, p)
    &&& forall|p: int| #[trigger]
        sv39::off_tables(vm.mem@, u, p) <==> sv39::off_tables(vm0.mem@, u, p)
    &&& forall|a: int| sv39::page_of(a) != f ==> #[trigger] vm.mem@[a] == vm0.mem@[a]
}

/// Take a zeroed page off the free list for the address space `u`.
pub(crate) fn take_page(vm: &mut Vm, Ghost(u): Ghost<int>) -> (f: u64)
    requires
        old(vm).wf(),
        old(vm).root != 0,
        old(vm).kmem.pages().len() >= 1,
        space(*old(vm), u),
    ensures
        got_page(*old(vm), *final(vm), u, f as int),
        old(vm).kmem.pages().contains(f as int),
        final(vm).mem@ == physmem::page_filled(old(vm).mem@, f as int, 0),
{
    let ghost vm0 = *vm;
    let ghost pages = vm.kmem.pages();
    let f: u64 = kalloc::alloc_page(&mut vm.kmem, &mut vm.mem).unwrap();
    proof {
        assert forall|a: int| sv39::page_of(a) != f implies #[trigger] vm.mem@[a] == vm0.mem@[a] by {
            sv39::lemma_off_page(f as int, a);
        }
        assert(pages =~= seq![f as int] + vm.kmem.pages());
        lemma_pushed(vm.kmem.pages(), f as int, pages);
        lemma_step(vm0, *vm, u);
    }
    f
}

/// Writing to the page that was taken changes nothing else.
pub proof fn lemma_got_write(vm0: Vm, vm1: Vm, vm2: Vm, u: int, f: int)
    requires
        vm0.root != 0,
        got_page(vm0, vm1, u, f),
        vm2.image == vm1.image,
        vm2.root == vm1.root,
        vm2.kmem == vm1.kmem,
        vm2.mem.wf(),
        forall|a: int| sv39::page_of(a) != f ==> #[trigger] vm2.mem@[a] == vm1.mem@[a],
    ensures
        got_page(vm0, vm2, u, f),
{
    let m1 = vm1.mem@;
    let m2 = vm2.mem@;
    kalloc::lemma_pages(vm1.kmem, m1);
    assert forall|p: int| #[trigger] vm1.kmem.pages().contains(p) implies m2[p] == m1[p] by {
        sv39::lemma_page_of(p, 0);
    }
    kalloc::lemma_frame(vm1.kmem, m1, m2);
    lemma_step(vm1, vm2, u);
}

/// What mapping one fresh page in the user slot of `u` changes: the frame is
/// the first free page, and the tables that were missing are those behind it.
pub open spec fn page_added(vm1: Vm, vm2: Vm, u: int, vp: int, f: u64, perm: u64) -> bool {
    let m1 = vm1.mem@;
    let m2 = vm2.mem@;
    let n = 1 + vm::missing(m1, u, vp);
    &&& vm2.wf()
    &&& vm2.image == vm1.image
    &&& vm2.root == vm1.root
    &&& space(vm2, u)
    &&& vm1.kmem.pages().len() >= n
    &&& f == vm1.kmem.pages()[0]
    &&& kalloc::managed(vm1.start(), f as int)
    &&& vm2.kmem.pages() == vm1.kmem.pages().skip(n as int)
    &&& forall|p: int| #[trigger]
        owns(m2, u, p) <==> owns(m1, u, p) || (vm1.kmem.pages().contains(p)
            && !vm2.kmem.pages().contains(p))
    &&& forall|q: int|
        sv39::page_idx(q) ==> #[trigger] sv39::leaf(m2, u, q) == if q == vp {
            sv39::leaf_pte(f, perm)
        } else {
            sv39::leaf(m1, u, q)
        }
    &&& sv39::l1(m2, u, 1) >= 0
    &&& forall|g: int|
        user_group(g) ==> (#[trigger] sv39::l0(m2, u, g) >= 0 <==> sv39::l0(m1, u, g) >= 0 || g
            == vp / 512)
    &&& forall|a: int|
        untouched(m1, u, sv39::page_of(a)) && !vm1.kmem.pages().contains(sv39::page_of(a))
            ==> #[trigger] m2[a] == m1[a]
}

/// Map the page that was taken at `va`.
#[verifier::rlimit(60)]
pub(crate) fn map_taken(
    vm: &mut Vm,
    u: u64,
    va: u64,
    f: u64,
    perm: u64,
    Ghost(vm0): Ghost<Vm>,
)
    requires
        vm0.wf(),
        vm0.root != 0,
        got_page(vm0, *old(vm), u as int, f as int),
        va % 4096 == 0,
        user_page(va as int / 4096),
        frame(vm0.mem@, u as int, va as int / 4096) < 0,
        perm & !PERM_MASK == 0,
        perm & PTE_U != 0,
        1 + vm::missing(vm0.mem@, u as int, va as int / 4096) <= vm0.kmem.pages().len(),
    ensures
        page_added(vm0, *final(vm), u as int, va as int / 4096, f, perm),
        forall|k: int|
            0 <= k < 4096 ==> #[trigger] final(vm).mem@[f + k] == old(vm).mem@[f + k],
{
    let ghost m0 = vm0.mem@;
    let ghost m2 = vm.mem@;
    let ghost vm1 = *vm;
    let ghost ui = u as int;
    let ghost vp = va as int / 4096;
    let ghost pages = vm0.kmem.pages();
    proof {
        assert(sv39::root_idx(1) && sv39::group_idx(vp / 512) && vp / ROOT_SPAN as int == 1);
        assert(sv39::page_idx(vp));
        assert(vm::missing(m2, ui, vp) == vm::missing(m0, ui, vp));
        assert(frame(m2, ui, vp) == frame(m0, ui, vp));
        lemma_loose_off(m2, ui, vm.root as int, vm.start(), f as int);
    }
    map_user(vm, u, va, f, perm);
    proof {
        let m3 = vm.mem@;
        assert(vm.kmem.pages() =~= pages.skip((1 + vm::missing(m0, ui, vp)) as int));
        assert forall|k: int| 0 <= k < 4096 implies #[trigger] m3[f + k] == m2[f + k] by {
            sv39::lemma_page_of(f as int, k);
        }
        assert forall|a: int|
            untouched(m0, ui, sv39::page_of(a)) && !pages.contains(
                sv39::page_of(a),
            ) implies #[trigger] m3[a] == m0[a] by {
            assert(pages.contains(f as int));
            assert(sv39::page_of(a) != f);
            assert(m2[a] == m0[a]);
            assert(untouched(m2, ui, sv39::page_of(a)));
            assert(!vm1.kmem.pages().contains(sv39::page_of(a)));
            assert(m3[a] == m2[a]);
        }
        assert forall|g: int| user_group(g) implies (#[trigger] sv39::l0(m3, ui, g) >= 0
            <==> sv39::l0(m0, ui, g) >= 0 || g == vp / 512) by {
            assert(sv39::group_idx(g));
            assert(sv39::l0(m2, ui, g) == sv39::l0(m0, ui, g));
        }
        assert forall|q: int| sv39::page_idx(q) implies #[trigger] sv39::leaf(m3, ui, q) == if q
            == vp {
            sv39::leaf_pte(f, perm)
        } else {
            sv39::leaf(m0, ui, q)
        } by {
            assert(sv39::leaf(m2, ui, q) == sv39::leaf(m0, ui, q));
        }
    }
}

/// Is any virtual page of `[lo, hi)` mapped?
pub open spec fn any_mapped(m: Map<int, u64>, u: int, lo: int, hi: int) -> bool {
    exists|q: int| lo <= q < hi && #[trigger] frame(m, u, q) >= 0
}

/// Pages that copying virtual page `vp` takes, once those below it are
/// copied: none where it is not mapped; else a frame, a level-1 table if it
/// is the first of the address space, and a level-0 table if it is the first
/// of its group.
pub open spec fn clone_step(m: Map<int, u64>, u: int, vp: int) -> nat {
    if frame(m, u, vp) < 0 {
        0
    } else {
        1 + (if any_mapped(m, u, 0x4_0000, vp) {
            0nat
        } else {
            1
        }) + (if any_mapped(m, u, vp / 512 * 512, vp) {
            0nat
        } else {
            1
        })
    }
}

/// Pages that copying the virtual pages below `hi` takes.
pub open spec fn clone_upto(m: Map<int, u64>, u: int, hi: int) -> nat
    decreases hi,
{
    if hi <= 0x4_0000 {
        0
    } else {
        clone_upto(m, u, hi - 1) + clone_step(m, u, hi - 1)
    }
}

/// Pages that a copy of the address space takes.
pub open spec fn clone_pages(m: Map<int, u64>, u: int) -> nat {
    1 + clone_upto(m, u, 0x8_0000)
}

/// Virtual page `vp` of `child` is a private copy of what `parent` has there:
/// a frame of its own with the same contents and permissions, or nothing.
pub open spec fn cloned(
    m1: Map<int, u64>,
    parent: int,
    m2: Map<int, u64>,
    child: int,
    vp: int,
) -> bool {
    if frame(m1, parent, vp) >= 0 {
        let f = frame(m2, child, vp);
        &&& f >= 0
        &&& sv39::leaf(m2, child, vp) == sv39::leaf_pte(
            f as u64,
            sv39::leaf(m1, parent, vp) & PERM_MASK,
        )
        &&& forall|k: int|
            0 <= k < 4096 && k % 8 == 0 ==> #[trigger] m2[f + k] == m1[frame(m1, parent, vp)
                + k]
    } else {
        sv39::leaf(m2, child, vp) == 0
    }
}

/// Pages taken so far are monotone in how far the copy has come.
proof fn lemma_clone_mono(m: Map<int, u64>, u: int, lo: int, hi: int)
    requires
        lo <= hi,
    ensures
        clone_upto(m, u, lo) <= clone_upto(m, u, hi),
    decreases hi - lo,
{
    if lo < hi {
        lemma_clone_mono(m, u, lo, hi - 1);
    }
}

/// A group without a level-0 table takes nothing to copy.
proof fn lemma_clone_absent(m: Map<int, u64>, u: int, g: int, hi: int)
    requires
        user_group(g),
        sv39::l0(m, u, g) < 0,
        g * 512 <= hi <= (g + 1) * 512,
    ensures
        clone_upto(m, u, hi) == clone_upto(m, u, g * 512),
        forall|vp: int| g * 512 <= vp < (g + 1) * 512 ==> #[trigger] frame(m, u, vp) == -1,
    decreases hi,
{
    sv39::lemma_table_pte(0);
    assert forall|vp: int| g * 512 <= vp < (g + 1) * 512 implies #[trigger] frame(m, u, vp) == -1 by {
        sv39::lemma_leaf(m, u, vp);
        assert(vp / 512 == g);
    }
    if hi > g * 512 {
        lemma_clone_absent(m, u, g, hi - 1);
        assert(frame(m, u, hi - 1) == -1);
    }
}

/// How far a copy has come: the virtual pages of `parent` below `vp` are
/// copied, the child owns exactly what has left the free list, and nothing
/// else in memory has changed.
#[verifier::opaque]
spec fn cloning(vm0: Vm, vm: Vm, parent: int, child: int, vp: int) -> bool {
    let m0 = vm0.mem@;
    let m = vm.mem@;
    &&& vm.wf()
    &&& vm.image == vm0.image
    &&& vm.root == vm0.root
    &&& space(vm, child)
    &&& forall|p: int| #[trigger]
        owns(m, child, p) <==> vm0.kmem.pages().contains(p) && !vm.kmem.pages().contains(p)
    &&& forall|p: int| #[trigger] vm.kmem.pages().contains(p) ==> vm0.kmem.pages().contains(p)
    &&& forall|a: int|
        !vm0.kmem.pages().contains(sv39::page_of(a)) ==> #[trigger] m[a] == m0[a]
    &&& vm.kmem.pages().len() + 1 + clone_upto(m0, parent, vp) == vm0.kmem.pages().len()
    &&& sv39::l1(m, child, 1) >= 0 <==> any_mapped(m0, parent, 0x4_0000, vp)
    &&& forall|g: int|
        user_group(g) ==> (#[trigger] sv39::l0(m, child, g) >= 0 <==> any_mapped(
            m0,
            parent,
            g * 512,
            if vp < (g + 1) * 512 {
                vp
            } else {
                (g + 1) * 512
            },
        ))
    &&& forall|q: int|
        user_page(q) && q < vp ==> #[trigger] cloned(m0, parent, m, child, q)
    &&& forall|q: int| user_page(q) && q >= vp ==> #[trigger] sv39::leaf(m, child, q) == 0
}

/// What one copied page changes.
spec fn clone_one(
    vm1: Vm,
    vm2: Vm,
    child: int,
    vp: int,
    src: int,
    f: u64,
    perm: u64,
) -> bool {
    &&& page_added(vm1, vm2, child, vp, f, perm)
    &&& forall|k: int|
        0 <= k < 4096 && k % 8 == 0 ==> #[trigger] vm2.mem@[f + k] == vm1.mem@[src + k]
}

/// Take a page off the free list for the address space `u`, and copy the frame at
/// `src` to it.
#[verifier::spinoff_prover]
fn copy_frame(vm: &mut Vm, src: u64, Ghost(u): Ghost<int>) -> (f: u64)
    requires
        old(vm).wf(),
        old(vm).root != 0,
        old(vm).kmem.pages().len() >= 1,
        space(*old(vm), u),
        loose(*old(vm), u, src as int),
    ensures
        got_page(*old(vm), *final(vm), u, f as int),
        forall|k: int|
            0 <= k < 4096 && k % 8 == 0 ==> #[trigger] final(vm).mem@[f + k] == old(vm).mem@[src
                + k],
{
    let ghost vm0 = *vm;
    let f: u64 = take_page(vm, Ghost(u));
    let ghost vm1 = *vm;
    assert(src != f);
    vm.mem.copy_page(src, f);
    proof {
        let m2 = vm.mem@;
        assert forall|a: int| sv39::page_of(a) != f implies #[trigger] m2[a] == vm1.mem@[a] by {
            sv39::lemma_off_page(f as int, a);
        }
        lemma_got_write(vm0, vm1, *vm, u, f as int);
        assert forall|k: int| 0 <= k < 4096 && k % 8 == 0 implies #[trigger] m2[f + k]
            == vm0.mem@[src + k] by {
            sv39::lemma_page_of(src as int, k);
            assert(m2[f + k] == vm1.mem@[src + k]);
            assert(vm1.mem@[src + k] == vm0.mem@[src + k]);
        }
    }
    f
}

/// Copy the frame at `src` to a fresh frame of `child` at `va`.
#[verifier::spinoff_prover]
fn clone_page(vm: &mut Vm, child: u64, va: u64, src: u64, perm: u64) -> (f: u64)
    requires
        old(vm).wf(),
        old(vm).root != 0,
        space(*old(vm), child as int),
        va % 4096 == 0,
        user_page(va as int / 4096),
        frame(old(vm).mem@, child as int, va as int / 4096) < 0,
        loose(*old(vm), child as int, src as int),
        perm & !PERM_MASK == 0,
        perm & PTE_U != 0,
        1 + vm::missing(old(vm).mem@, child as int, va as int / 4096)
            <= old(vm).kmem.pages().len(),
    ensures
        clone_one(
            *old(vm),
            *final(vm),
            child as int,
            va as int / 4096,
            src as int,
            f,
            perm,
        ),
{
    let ghost vm0 = *vm;
    let ghost c = child as int;
    let f: u64 = copy_frame(vm, src, Ghost(c));
    let ghost m2 = vm.mem@;
    map_taken(vm, child, va, f, perm, Ghost(vm0));
    proof {
        assert forall|k: int| 0 <= k < 4096 && k % 8 == 0 implies #[trigger] vm.mem@[f + k]
            == vm0.mem@[src + k] by {
            assert(vm.mem@[f + k] == m2[f + k]);
        }
    }
    f
}

/// Skipping virtual pages that the parent does not map is copying them.
proof fn lemma_clone_skip(vm0: Vm, vm: Vm, parent: int, child: int, vp: int, hi: int)
    requires
        cloning(vm0, vm, parent, child, vp),
        0x4_0000 <= vp <= hi <= 0x8_0000,
        forall|q: int| vp <= q < hi ==> #[trigger] frame(vm0.mem@, parent, q) < 0,
    ensures
        cloning(vm0, vm, parent, child, hi),
    decreases hi - vp,
{
    reveal(cloning);
    if vp < hi {
        let m0 = vm0.mem@;
        let m = vm.mem@;
        assert(frame(m0, parent, vp) < 0);
        assert forall|lo: int| #[trigger] any_mapped(m0, parent, lo, vp + 1) == any_mapped(
            m0,
            parent,
            lo,
            vp,
        ) by {
            if any_mapped(m0, parent, lo, vp + 1) {
                let q = choose|q: int| lo <= q < vp + 1 && #[trigger] frame(m0, parent, q) >= 0;
                assert(q != vp);
            }
            if any_mapped(m0, parent, lo, vp) {
                let q = choose|q: int| lo <= q < vp && #[trigger] frame(m0, parent, q) >= 0;
                assert(lo <= q < vp + 1 && frame(m0, parent, q) >= 0);
            }
        }
        assert(clone_upto(m0, parent, vp + 1) == clone_upto(m0, parent, vp));
        assert(cloned(m0, parent, m, child, vp)) by {
            assert(sv39::leaf(m, child, vp) == 0);
        }
        assert(cloning(vm0, vm, parent, child, vp + 1));
        lemma_clone_skip(vm0, vm, parent, child, vp + 1, hi);
    }
}

/// A page that is copied stays copied while another one is.
proof fn lemma_cloned_keep(
    vm0: Vm,
    vm1: Vm,
    vm2: Vm,
    parent: int,
    child: int,
    vp: int,
    q: int,
    src: int,
    f: u64,
    perm: u64,
)
    requires
        vm1.wf(),
        space(vm1, child),
        user_page(q),
        q != vp,
        clone_one(vm1, vm2, child, vp, src, f, perm),
        cloned(vm0.mem@, parent, vm1.mem@, child, q),
    ensures
        cloned(vm0.mem@, parent, vm2.mem@, child, q),
{
    let m1 = vm1.mem@;
    let m2 = vm2.mem@;
    assert(sv39::page_idx(q));
    assert(sv39::leaf(m2, child, q) == sv39::leaf(m1, child, q));
    if frame(vm0.mem@, parent, q) >= 0 {
        let fq = frame(m1, child, q);
        lemma_user_page(m1, child, vm1.root as int, vm1.start(), q);
        assert forall|k: int| 0 <= k < 4096 && k % 8 == 0 implies #[trigger] m2[fq + k]
            == vm0.mem@[frame(vm0.mem@, parent, q) + k] by {
            sv39::lemma_page_of(fq, k);
            assert(!vm1.kmem.pages().contains(fq));
            assert(m2[fq + k] == m1[fq + k]);
        }
    }
}

/// One more page copied.
#[verifier::rlimit(60)]
proof fn lemma_clone_step(
    vm0: Vm,
    vm1: Vm,
    vm2: Vm,
    parent: int,
    child: int,
    vp: int,
    src: int,
    f: u64,
    perm: u64,
)
    requires
        cloning(vm0, vm1, parent, child, vp),
        user_page(vp),
        frame(vm0.mem@, parent, vp) == src,
        src >= 0,
        perm == sv39::leaf(vm0.mem@, parent, vp) & PERM_MASK,
        perm & !PERM_MASK == 0,
        clone_one(vm1, vm2, child, vp, src, f, perm),
        forall|k: int|
            0 <= k < 4096 && k % 8 == 0 ==> #[trigger] vm1.mem@[src + k] == vm0.mem@[src + k],
    ensures
        cloning(vm0, vm2, parent, child, vp + 1),
{
    reveal(cloning);
    let m0 = vm0.mem@;
    let m1 = vm1.mem@;
    let m2 = vm2.mem@;
    let g0 = vp / 512;
    assert(vp / ROOT_SPAN as int == 1);
    assert(user_group(g0) && g0 * 512 <= vp < (g0 + 1) * 512);
    assert(sv39::page_idx(vp));
    let n = 1 + vm::missing(m1, child, vp);
    assert(n == clone_step(m0, parent, vp)) by {
        assert(sv39::l0(m1, child, g0) >= 0 <==> any_mapped(m0, parent, g0 * 512, vp));
    }
    assert(clone_upto(m0, parent, vp + 1) == clone_upto(m0, parent, vp) + n);
    let rest = vm2.kmem.pages();
    assert forall|p: int| #[trigger] rest.contains(p) implies vm1.kmem.pages().contains(p) by {
        let k = rest.index_of(p);
        assert(vm1.kmem.pages()[k + n] == p);
    }
    assert(any_mapped(m0, parent, 0x4_0000, vp + 1));
    assert forall|g: int| user_group(g) implies (#[trigger] sv39::l0(m2, child, g) >= 0
        <==> any_mapped(
        m0,
        parent,
        g * 512,
        if vp + 1 < (g + 1) * 512 {
            vp + 1
        } else {
            (g + 1) * 512
        },
    )) by {
        lemma_mapped_step(m0, parent, vp, g);
        assert(sv39::l0(m1, child, g) >= 0 <==> any_mapped(
            m0,
            parent,
            g * 512,
            if vp < (g + 1) * 512 {
                vp
            } else {
                (g + 1) * 512
            },
        ));
    }
    assert forall|q: int| user_page(q) && q < vp + 1 implies #[trigger] cloned(
        m0,
        parent,
        m2,
        child,
        q,
    ) by {
        if q < vp {
            assert(cloned(m0, parent, m1, child, q));
            lemma_cloned_keep(vm0, vm1, vm2, parent, child, vp, q, src, f, perm);
        } else {
            sv39::lemma_leaf_pte(f, perm);
            assert(frame(m2, child, vp) == f);
        }
    }
    assert forall|q: int| user_page(q) && q >= vp + 1 implies #[trigger] sv39::leaf(m2, child, q)
        == 0 by {
        assert(sv39::page_idx(q));
        assert(sv39::leaf(m1, child, q) == 0);
    }
    assert forall|a: int| !vm0.kmem.pages().contains(sv39::page_of(a)) implies #[trigger] m2[a]
        == m0[a] by {
        let p = sv39::page_of(a);
        assert(!owns(m1, child, p));
        assert(untouched(m1, child, p));
        assert(m1[a] == m0[a]);
    }
}

/// Mapping `vp` counts for its own group and no other.
proof fn lemma_mapped_step(m: Map<int, u64>, u: int, vp: int, g: int)
    requires
        user_page(vp),
        user_group(g),
        frame(m, u, vp) >= 0,
    ensures
        any_mapped(
            m,
            u,
            g * 512,
            if vp + 1 < (g + 1) * 512 {
                vp + 1
            } else {
                (g + 1) * 512
            },
        ) <==> any_mapped(
            m,
            u,
            g * 512,
            if vp < (g + 1) * 512 {
                vp
            } else {
                (g + 1) * 512
            },
        ) || g == vp / 512,
{
    let h1 = if vp + 1 < (g + 1) * 512 {
        vp + 1
    } else {
        (g + 1) * 512
    };
    let h0 = if vp < (g + 1) * 512 {
        vp
    } else {
        (g + 1) * 512
    };
    if any_mapped(m, u, g * 512, h1) {
        let q = choose|q: int| g * 512 <= q < h1 && #[trigger] frame(m, u, q) >= 0;
        assert(q < h0 || q == vp);
    }
    if any_mapped(m, u, g * 512, h0) {
        let q = choose|q: int| g * 512 <= q < h0 && #[trigger] frame(m, u, q) >= 0;
        assert(g * 512 <= q < h1 && frame(m, u, q) >= 0);
    }
}

/// The system is sound while a copy is under way.
proof fn lemma_cloning(vm0: Vm, vm: Vm, parent: int, child: int, vp: int)
    requires
        cloning(vm0, vm, parent, child, vp),
    ensures
        vm.wf(),
        vm.root == vm0.root,
{
    reveal(cloning);
}

/// A word on a page of `parent` still holds what it held when the copy
/// started.
proof fn lemma_parent_word(vm0: Vm, vm: Vm, parent: int, child: int, vp: int, p: int, k: int)
    requires
        space(vm0, parent),
        cloning(vm0, vm, parent, child, vp),
        owns(vm0.mem@, parent, p),
        memlayout::dram_page(p),
        0 <= k < 4096,
    ensures
        vm.mem@[p + k] == vm0.mem@[p + k],
{
    reveal(cloning);
    sv39::lemma_page_of(p, k);
    assert(!vm0.kmem.pages().contains(p));
}

/// The permission bits of a user leaf entry.
proof fn lemma_user_perm(e: u64)
    requires
        e & PTE_U != 0,
    ensures
        (e & PERM_MASK) & !PERM_MASK == 0,
        (e & PERM_MASK) & PTE_U != 0,
{
    sv39::lemma_rights(e);
}

/// The next page of the parent's can be copied.
proof fn lemma_clone_ready(vm0: Vm, vm: Vm, parent: int, child: int, vp: int)
    requires
        vm0.wf(),
        vm0.root != 0,
        space(vm0, parent),
        cloning(vm0, vm, parent, child, vp),
        user_page(vp),
        frame(vm0.mem@, parent, vp) >= 0,
        clone_pages(vm0.mem@, parent) <= vm0.kmem.pages().len(),
    ensures
        space(vm, child),
        frame(vm.mem@, child, vp) < 0,
        loose(vm, child, frame(vm0.mem@, parent, vp)),
        (sv39::leaf(vm0.mem@, parent, vp) & PERM_MASK) & !PERM_MASK == 0,
        (sv39::leaf(vm0.mem@, parent, vp) & PERM_MASK) & PTE_U != 0,
        1 + vm::missing(vm.mem@, child, vp) <= vm.kmem.pages().len(),
        forall|k: int|
            0 <= k < 4096 && k % 8 == 0 ==> #[trigger] vm.mem@[frame(vm0.mem@, parent, vp) + k]
                == vm0.mem@[frame(vm0.mem@, parent, vp) + k],
{
    let m0 = vm0.mem@;
    let src = frame(m0, parent, vp);
    lemma_user_page(m0, parent, vm0.root as int, vm0.start(), vp);
    lemma_owned(m0, parent, vm0.root as int, vm0.start(), src);
    lemma_user_perm(sv39::leaf(m0, parent, vp));
    assert(!vm0.kmem.pages().contains(src));
    lemma_clone_mono(m0, parent, vp + 1, 0x8_0000);
    lemma_clone_need(vm0, vm, parent, child, vp);
    assert forall|k: int| 0 <= k < 4096 && k % 8 == 0 implies #[trigger] vm.mem@[src + k] == m0[src
        + k] by {
        lemma_parent_word(vm0, vm, parent, child, vp, src, k);
    }
    reveal(cloning);
    lemma_kernel_same(vm0, vm, src);
    assert(frame(vm.mem@, child, vp) < 0) by {
        assert(sv39::leaf(vm.mem@, child, vp) == 0);
        sv39::lemma_table_pte(0);
    }
}

/// Copy entry `j` of the group `g`, whose level-0 table in the parent is `t0`.
#[verifier::spinoff_prover]
#[verifier::rlimit(60)]
fn clone_entry(
    vm: &mut Vm,
    child: u64,
    t0: u64,
    g: u64,
    j: u64,
    Ghost(vm0): Ghost<Vm>,
    Ghost(parent): Ghost<int>,
)
    requires
        vm0.wf(),
        vm0.root != 0,
        space(vm0, parent),
        user_group(g as int),
        j < 512,
        sv39::l0(vm0.mem@, parent, g as int) == t0,
        kalloc::managed(vm0.start(), t0 as int),
        owns(vm0.mem@, parent, t0 as int),
        cloning(vm0, *old(vm), parent, child as int, g * 512 + j),
        clone_pages(vm0.mem@, parent) <= vm0.kmem.pages().len(),
    ensures
        cloning(vm0, *final(vm), parent, child as int, g * 512 + j + 1),
{
    let ghost m0 = vm0.mem@;
    let ghost c = child as int;
    let ghost vp = g * 512 + j;
    proof {
        assert(user_page(vp) && vp / 512 == g && vp % 512 == j);
        lemma_cloning(vm0, *vm, parent, c, vp);
        sv39::lemma_leaf(m0, parent, vp);
        lemma_parent_word(vm0, *vm, parent, c, vp, t0 as int, 8 * j as int);
    }
    let e: u64 = vm.mem.read(t0 + 8 * j);
    assert(e == sv39::leaf(m0, parent, vp));
    if vm::entry_valid(e) {
        let src: u64 = vm::pte_to_pa(e);
        let va: u64 = (g * 512 + j) * PAGE_SIZE;
        let ghost vm1 = *vm;
        proof {
            assert(va as int / 4096 == vp);
            lemma_clone_ready(vm0, *vm, parent, c, vp);
        }
        let f: u64 = clone_page(vm, child, va, src, e & PERM_MASK);
        proof {
            lemma_clone_step(vm0, vm1, *vm, parent, c, vp, src as int, f, e & PERM_MASK);
        }
    } else {
        proof {
            assert(frame(m0, parent, vp) == -1);
            lemma_clone_skip(vm0, *vm, parent, c, vp, vp + 1);
        }
    }
}

/// Copy the pages of one group, whose level-0 table in the parent is `t0`.
#[verifier::rlimit(40)]
fn clone_group(
    vm: &mut Vm,
    child: u64,
    t0: u64,
    g: u64,
    Ghost(vm0): Ghost<Vm>,
    Ghost(parent): Ghost<int>,
)
    requires
        vm0.wf(),
        vm0.root != 0,
        space(vm0, parent),
        user_group(g as int),
        sv39::l0(vm0.mem@, parent, g as int) == t0,
        cloning(vm0, *old(vm), parent, child as int, g * 512),
        clone_pages(vm0.mem@, parent) <= vm0.kmem.pages().len(),
    ensures
        cloning(vm0, *final(vm), parent, child as int, (g + 1) * 512),
{
    proof {
        lemma_owns_table(vm0.mem@, parent, vm0.root as int, vm0.start(), g as int);
    }
    let mut j: u64 = 0;
    while j < 512
        invariant
            j <= 512,
            vm0.wf(),
            vm0.root != 0,
            space(vm0, parent),
            user_group(g as int),
            sv39::l0(vm0.mem@, parent, g as int) == t0,
            kalloc::managed(vm0.start(), t0 as int),
            owns(vm0.mem@, parent, t0 as int),
            cloning(vm0, *vm, parent, child as int, g * 512 + j),
            clone_pages(vm0.mem@, parent) <= vm0.kmem.pages().len(),
        decreases 512 - j,
    {
        clone_entry(vm, child, t0, g, j, Ghost(vm0), Ghost(parent));
        j = j + 1;
    }
}

/// While a copy is under way the kernel's tables are where they were.
proof fn lemma_kernel_same(vm0: Vm, vm: Vm, p: int)
    requires
        vm0.wf(),
        vm0.root != 0,
        vm.root == vm0.root,
        forall|a: int|
            !vm0.kmem.pages().contains(sv39::page_of(a)) ==> #[trigger] vm.mem@[a] == vm0.mem@[a],
        sv39::off_tables(vm0.mem@, vm0.root as int, p),
    ensures
        sv39::off_tables(vm.mem@, vm0.root as int, p),
{
    let kr = vm0.root as int;
    assert forall|a: int| !sv39::off_tables(vm0.mem@, kr, sv39::page_of(a)) implies #[trigger] vm.mem@[a]
        == vm0.mem@[a] by {
        assert(!vm0.kmem.pages().contains(sv39::page_of(a)));
    }
    sv39::lemma_frame(vm0.mem@, vm.mem@, kr);
}

/// The next page to copy needs what `clone_step` says.
proof fn lemma_clone_need(vm0: Vm, vm: Vm, parent: int, child: int, vp: int)
    requires
        cloning(vm0, vm, parent, child, vp),
        user_page(vp),
        frame(vm0.mem@, parent, vp) >= 0,
    ensures
        1 + vm::missing(vm.mem@, child, vp) == clone_step(vm0.mem@, parent, vp),
        clone_upto(vm0.mem@, parent, vp + 1) == clone_upto(vm0.mem@, parent, vp) + clone_step(
            vm0.mem@,
            parent,
            vp,
        ),
{
    reveal(cloning);
    assert(vp / ROOT_SPAN as int == 1);
    assert(user_group(vp / 512));
    assert(sv39::l0(vm.mem@, child, vp / 512) >= 0 <==> any_mapped(
        vm0.mem@,
        parent,
        vp / 512 * 512,
        vp,
    ));
}

/// The parent's level-1 entry for group `g` can still be read.
proof fn lemma_clone_entry(vm0: Vm, vm: Vm, parent: int, child: int, g: int)
    requires
        space(vm0, parent),
        cloning(vm0, vm, parent, child, g * 512),
        user_group(g),
        kalloc::managed(vm0.start(), sv39::l1(vm0.mem@, parent, 1)),
        owns(vm0.mem@, parent, sv39::l1(vm0.mem@, parent, 1)),
    ensures
        vm.mem.wf(),
        sv39::target(vm.mem@[sv39::l1(vm0.mem@, parent, 1) + 8 * (g - 512)]) == sv39::l0(
            vm0.mem@,
            parent,
            g,
        ),
{
    lemma_cloning(vm0, vm, parent, child, g * 512);
    assert(g / 512 == 1 && g % 512 == g - 512);
    sv39::lemma_l0(vm0.mem@, parent, g);
    lemma_parent_word(
        vm0,
        vm,
        parent,
        child,
        g * 512,
        sv39::l1(vm0.mem@, parent, 1),
        8 * (g - 512),
    );
}

/// A group without a level-0 table is copied by passing over it.
proof fn lemma_clone_no_group(vm0: Vm, vm: Vm, parent: int, child: int, g: int)
    requires
        cloning(vm0, vm, parent, child, g * 512),
        user_group(g),
        sv39::l0(vm0.mem@, parent, g) < 0,
    ensures
        cloning(vm0, vm, parent, child, (g + 1) * 512),
{
    lemma_clone_absent(vm0.mem@, parent, g, (g + 1) * 512);
    lemma_clone_skip(vm0, vm, parent, child, g * 512, (g + 1) * 512);
}

/// Copy the group `g` under the parent's level-1 table `t1`, if there is one.
#[verifier::spinoff_prover]
#[verifier::rlimit(40)]
fn clone_slot(
    vm: &mut Vm,
    child: u64,
    t1: u64,
    g: u64,
    Ghost(vm0): Ghost<Vm>,
    Ghost(parent): Ghost<int>,
)
    requires
        vm0.wf(),
        vm0.root != 0,
        space(vm0, parent),
        user_group(g as int),
        sv39::l1(vm0.mem@, parent, 1) == t1,
        kalloc::managed(vm0.start(), t1 as int),
        owns(vm0.mem@, parent, t1 as int),
        cloning(vm0, *old(vm), parent, child as int, g * 512),
        clone_pages(vm0.mem@, parent) <= vm0.kmem.pages().len(),
    ensures
        cloning(vm0, *final(vm), parent, child as int, (g + 1) * 512),
{
    proof {
        lemma_clone_entry(vm0, *vm, parent, child as int, g as int);
        physmem::lemma_slot(t1 as int, g - 512);
    }
    let e1: u64 = vm.mem.read(t1 + 8 * (g - 512));
    if vm::entry_valid(e1) {
        clone_group(vm, child, vm::pte_to_pa(e1), g, Ghost(vm0), Ghost(parent));
    } else {
        proof {
            lemma_clone_no_group(vm0, *vm, parent, child as int, g as int);
        }
    }
}

/// Copy every group under the parent's level-1 table `t1`.
fn clone_groups(
    vm: &mut Vm,
    child: u64,
    t1: u64,
    Ghost(vm0): Ghost<Vm>,
    Ghost(parent): Ghost<int>,
)
    requires
        vm0.wf(),
        vm0.root != 0,
        space(vm0, parent),
        sv39::l1(vm0.mem@, parent, 1) == t1,
        kalloc::managed(vm0.start(), t1 as int),
        owns(vm0.mem@, parent, t1 as int),
        cloning(vm0, *old(vm), parent, child as int, 0x4_0000),
        clone_pages(vm0.mem@, parent) <= vm0.kmem.pages().len(),
    ensures
        cloning(vm0, *final(vm), parent, child as int, 0x8_0000),
{
    let mut g: u64 = 512;
    while g < 1024
        invariant
            512 <= g <= 1024,
            vm0.wf(),
            vm0.root != 0,
            space(vm0, parent),
            sv39::l1(vm0.mem@, parent, 1) == t1,
            kalloc::managed(vm0.start(), t1 as int),
            owns(vm0.mem@, parent, t1 as int),
            cloning(vm0, *vm, parent, child as int, g * 512),
            clone_pages(vm0.mem@, parent) <= vm0.kmem.pages().len(),
        decreases 1024 - g,
    {
        clone_slot(vm, child, t1, g, Ghost(vm0), Ghost(parent));
        g = g + 1;
    }
}

/// Nothing is copied yet.
proof fn lemma_clone_start(vm0: Vm, vm: Vm, parent: int, child: int)
    requires
        vm0.wf(),
        vm.wf(),
        vm0.kmem.pages().len() >= 1,
        vm.image == vm0.image,
        vm.root == vm0.root,
        vm0.root != 0,
        child == vm0.kmem.pages()[0],
        vm.kmem.pages() == vm0.kmem.pages().drop_first(),
        user_table(vm.mem@, child, vm0.root as int, vm0.start()),
        forall|p: int| #[trigger] owns(vm.mem@, child, p) <==> p == child,
        sv39::l1(vm.mem@, child, 1) == -1,
        forall|a: int| sv39::page_of(a) != child ==> #[trigger] vm.mem@[a] == vm0.mem@[a],
    ensures
        cloning(vm0, vm, parent, child, 0x4_0000),
{
    reveal(cloning);
    let pages = vm0.kmem.pages();
    kalloc::lemma_pages(vm0.kmem, vm0.mem@);
    assert(pages =~= seq![child] + vm.kmem.pages());
    lemma_pushed(vm.kmem.pages(), child, pages);
    assert(!vm.kmem.pages().contains(child)) by {
        if vm.kmem.pages().contains(child) {
            let k = vm.kmem.pages().index_of(child);
            assert(pages[k + 1] == pages[0]);
        }
    }
    lemma_empty_slot(vm.mem@, child);
}

/// Duplicate the address space `parent`: a fresh table that shares the kernel
/// mapping and holds, for every user page of the parent's, a private copy at
/// the same address with the same permissions.
#[verifier::rlimit(40)]
pub fn clone_user_table(vm: &mut Vm, parent: u64) -> (child: u64)
    requires
        old(vm).wf(),
        old(vm).root != 0,
        space(*old(vm), parent as int),
        clone_pages(old(vm).mem@, parent as int) <= old(vm).kmem.pages().len(),
    ensures
        final(vm).wf(),
        final(vm).image == old(vm).image,
        final(vm).root == old(vm).root,
        space(*final(vm), child as int),
        child == old(vm).kmem.pages()[0],
        forall|vp: int|
            user_page(vp) ==> #[trigger] cloned(
                old(vm).mem@,
                parent as int,
                final(vm).mem@,
                child as int,
                vp,
            ),
        final(vm).kmem.pages().len() + clone_pages(old(vm).mem@, parent as int) == old(
            vm,
        ).kmem.pages().len(),
        forall|p: int| #[trigger]
            owns(final(vm).mem@, child as int, p) <==> old(vm).kmem.pages().contains(p) && !final(vm).kmem.pages().contains(p),
        forall|p: int| #[trigger]
            final(vm).kmem.pages().contains(p) ==> old(vm).kmem.pages().contains(p),
        forall|a: int|
            !old(vm).kmem.pages().contains(sv39::page_of(a)) ==> #[trigger] final(vm).mem@[a]
                == old(vm).mem@[a],
{
    let ghost vm0 = *vm;
    let ghost m0 = vm.mem@;
    let ghost p = parent as int;
    let child: u64 = make_user_table(vm);
    proof {
        lemma_clone_start(vm0, *vm, p, child as int);
        lemma_shared(m0, p, vm0.root as int, vm0.start());
        sv39::lemma_l1(m0, p, 1);
        lemma_parent_word(vm0, *vm, p, child as int, 0x4_0000, p, 8);
    }
    let e2: u64 = vm.mem.read(parent + 8);
    assert(e2 == sv39::ent(m0, p, 1));
    if vm::entry_valid(e2) {
        proof {
            assert(owns(m0, p, sv39::l1(m0, p, 1))) by {
                reveal(owns);
            }
            lemma_owned(m0, p, vm0.root as int, vm0.start(), sv39::l1(m0, p, 1));
        }
        clone_groups(vm, child, vm::pte_to_pa(e2), Ghost(vm0), Ghost(p));
    } else {
        proof {
            lemma_empty_slot(m0, p);
            lemma_clone_skip(vm0, *vm, p, child as int, 0x4_0000, 0x8_0000);
        }
    }
    proof {
        reveal(cloning);
    }
    child
}

/// Pages that [`clone_user_table`] would take for `parent`.
#[verifier::rlimit(60)]
pub fn clone_cost(vm: &Vm, parent: u64) -> (n: u64)
    requires
        vm.wf(),
        vm.root != 0,
        space(*vm, parent as int),
    ensures
        n == clone_pages(vm.mem@, parent as int),
{
    let ghost m = vm.mem@;
    let ghost p = parent as int;
    proof {
        lemma_shared(m, p, vm.root as int, vm.start());
        sv39::lemma_leaf(m, p, 0x4_0000);
    }
    let mut n: u64 = 1;
    let mut any: bool = false;
    let mut in_group: bool = false;
    let mut vp: u64 = 0x4_0000;
    assert(!any_mapped(m, p, 0x4_0000, 0x4_0000));
    while vp < 0x8_0000
        invariant
            0x4_0000 <= vp <= 0x8_0000,
            vm.mem.wf(),
            m == vm.mem@,
            p == parent,
            sv39::tree(m, p),
            n == 1 + clone_upto(m, p, vp as int),
            n <= 1 + 3 * (vp - 0x4_0000),
            any == any_mapped(m, p, 0x4_0000, vp as int),
            in_group == any_mapped(m, p, vp as int / 512 * 512, vp as int),
        decreases 0x8_0000 - vp,
    {
        let mapped: bool = vm::translate(&vm.mem, parent, vp * PAGE_SIZE).is_some();
        assert(mapped == (frame(m, p, vp as int) >= 0)) by {
            assert((vp * 4096) as int / 4096 == vp as int);
        }
        if mapped {
            n = n + 1;
            if !any {
                n = n + 1;
            }
            if !in_group {
                n = n + 1;
            }
            any = true;
            in_group = true;
            assert(frame(m, p, vp as int) >= 0);
            assert(any_mapped(m, p, 0x4_0000, vp as int + 1));
            assert(any_mapped(m, p, vp as int / 512 * 512, vp as int + 1));
        } else {
            proof {
                lemma_unmapped_step(m, p, 0x4_0000, vp as int);
                lemma_unmapped_step(m, p, vp as int / 512 * 512, vp as int);
            }
        }
        assert(clone_upto(m, p, vp as int + 1) == clone_upto(m, p, vp as int) + clone_step(
            m,
            p,
            vp as int,
        ));
        vp = vp + 1;
        if vp % 512 == 0 {
            in_group = false;
            assert(!any_mapped(m, p, vp as int / 512 * 512, vp as int));
        }
    }
    n
}

proof fn lemma_unmapped_step(m: Map<int, u64>, u: int, lo: int, vp: int)
    requires
        frame(m, u, vp) < 0,
    ensures
        any_mapped(m, u, lo, vp + 1) == any_mapped(m, u, lo, vp),
{
    if any_mapped(m, u, lo, vp + 1) {
        let q = choose|q: int| lo <= q < vp + 1 && #[trigger] frame(m, u, q) >= 0;
        assert(q != vp);
    }
    if any_mapped(m, u, lo, vp) {
        let q = choose|q: int| lo <= q < vp && #[trigger] frame(m, u, q) >= 0;
        assert(lo <= q < vp + 1 && frame(m, u, q) >= 0);
    }
}

} // verus!
