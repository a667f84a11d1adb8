//! Copying across the user boundary. Walking the page table is the security
//! boundary: every touched page must be mapped for user mode, and writable for
//! a copy out, before a single byte moves.
use vstd::prelude::*;

use crate::kalloc;
use crate::memlayout;
use crate::physmem;
use crate::proc;
use crate::proc::Process;
use crate::riscv;
use crate::riscv::Hart;
use crate::sv39;
use crate::uproc;
use crate::uvm;
use crate::vm;
use crate::vm::{Vm, PTE_U, PTE_W, VA_MAX};

verus! {

/// `root` is a page table of this system: the kernel's or an address space.
pub open spec fn table_ok(vm: Vm, root: int) -> bool {
    root == vm.root || uvm::space(vm, root)
}

/// May user mode read (and, for `write`, write) virtual page `vp`?
pub open spec fn user_access(m: Map<int, u64>, root: int, vp: int, write: bool) -> bool {
    let e = sv39::leaf(m, root, vp);
    &&& sv39::pte_valid(e)
    &&& e & PTE_U != 0
    &&& write ==> e & PTE_W != 0
}

/// Is virtual page `vp` touched by the range of `len` bytes at `ptr`?
pub open spec fn in_range(ptr: int, len: int, vp: int) -> bool {
    ptr / 4096 <= vp && vp * 4096 < ptr + len
}

/// The range of `len` bytes at `ptr` neither wraps nor leaves the address
/// space, and user mode has access to every page of it.
pub open spec fn user_range(
    m: Map<int, u64>,
    root: int,
    ptr: u64,
    len: int,
    write: bool,
) -> bool {
    &&& ptr + len <= VA_MAX
    &&& forall|vp: int|
        #[trigger] in_range(ptr as int, len, vp) ==> user_access(m, root, vp, write)
}

/// The physical address behind the virtual address `va`.
pub open spec fn phys(m: Map<int, u64>, root: int, va: int) -> int {
    sv39::pte_pa(sv39::leaf(m, root, va / 4096)) + va % 4096
}

/// The kernel map holds no page for user mode.
pub proof fn lemma_kernel_no_user(image: memlayout::KernelImage, vp: int)
    requires
        image.wf(),
        sv39::page_idx(vp),
    ensures
        vm::kernel_leaf(image, vp) & PTE_U == 0,
{
    assert(0u64 & 0x10 == 0) by (bit_vector);
    let perm = vm::kernel_perm(image, vp);
    if perm != 0 {
        assert((0x02u64 | 0x06 | 0x0a) & !0x1e == 0 && 0x02u64 & !0x1e == 0 && 0x06u64 & !0x1e == 0
            && 0x0au64 & !0x1e == 0 && 0x02u64 & 0x10 == 0 && 0x06u64 & 0x10 == 0 && 0x0au64 & 0x10
            == 0) by (bit_vector);
        let pa = (vp * 4096) as u64;
        assert(pa % 4096 == 0);
        sv39::lemma_leaf_pte(pa, perm);
    }
}

/// A page user mode has access to is a frame private to the address space.
pub proof fn lemma_access_private(vm: Vm, root: int, vp: int, write: bool)
    requires
        vm.wf(),
        vm.root != 0,
        table_ok(vm, root),
        sv39::page_idx(vp),
        user_access(vm.mem@, root, vp, write),
    ensures
        root != vm.root,
        uvm::space(vm, root),
        uvm::user_page(vp),
        uvm::frame(vm.mem@, root, vp) >= 0,
        uvm::frame(vm.mem@, root, vp) == sv39::pte_pa(sv39::leaf(vm.mem@, root, vp)),
        uvm::owns(vm.mem@, root, uvm::frame(vm.mem@, root, vp)),
        sv39::off_tables(vm.mem@, root, uvm::frame(vm.mem@, root, vp)),
        kalloc::managed(vm.start(), uvm::frame(vm.mem@, root, vp)),
        sv39::off_tables(vm.mem@, vm.root as int, uvm::frame(vm.mem@, root, vp)),
{
    lemma_kernel_no_user(vm.image, vp);
    reveal(vm::kernel_mapped);
    if root != vm.root {
        uvm::lemma_shared(vm.mem@, root, vm.root as int, vm.start());
        assert(uvm::user_page(vp)) by {
            if !uvm::user_page(vp) {
                assert(sv39::leaf(vm.mem@, root, vp) == sv39::leaf(
                    vm.mem@,
                    vm.root as int,
                    vp,
                ));
            }
        }
        uvm::lemma_user_page(vm.mem@, root, vm.root as int, vm.start(), vp);
        uvm::lemma_owned(
            vm.mem@,
            root,
            vm.root as int,
            vm.start(),
            uvm::frame(vm.mem@, root, vp),
        );
    }
}

/// The byte at `va` lies in the range's page `va / 4096`.
proof fn lemma_range_page(ptr: int, len: int, va: int)
    requires
        0 <= ptr <= va < ptr + len,
    ensures
        in_range(ptr, len, va / 4096),
{
}

/// The table of the calling process is a tree.
proof fn lemma_table_tree(vm: Vm, root: int)
    requires
        vm.wf(),
        vm.root != 0,
        table_ok(vm, root),
    ensures
        sv39::tree(vm.mem@, root),
{
    if root != vm.root {
        uvm::lemma_shared(vm.mem@, root, vm.root as int, vm.start());
    }
}

/// Does user mode have access to every page of the range?
#[verifier::rlimit(60)]
fn check_range(vm: &Vm, root: u64, ptr: u64, len: u64, write: bool) -> (ok: bool)
    requires
        vm.wf(),
        vm.root != 0,
        table_ok(*vm, root as int),
    ensures
        ok == user_range(vm.mem@, root as int, ptr, len as int, write),
{
    // Reject a range that wraps the address space or leaves the Sv39 user
    // region before any of it is walked.
    let end: u64 = match ptr.checked_add(len) {
        Some(end) => end,
        None => return false,
    };
    if end > VA_MAX {
        return false;
    }
    let ghost p0 = ptr as int / 4096;
    let mut page: u64 = ptr & !0xfffu64;
    proof {
        assert(ptr & !0xfffu64 == ptr - ptr % 4096) by (bit_vector);
        lemma_table_tree(*vm, root as int);
    }
    while page < end
        invariant
            page % 4096 == 0,
            end == ptr + len,
            end <= VA_MAX,
            p0 == ptr as int / 4096,
            p0 * 4096 <= page,
            vm.mem.wf(),
            sv39::tree(vm.mem@, root as int),
            forall|vp: int|
                p0 <= vp < page as int / 4096 ==> #[trigger] user_access(
                    vm.mem@,
                    root as int,
                    vp,
                    write,
                ),
        decreases end + 4096 - page,
    {
        let ghost vp = page as int / 4096;
        assert(in_range(ptr as int, len as int, vp));
        match vm::translate(&vm.mem, root, page) {
            Some((_, pte)) => {
                if pte & PTE_U == 0 || (write && pte & PTE_W == 0) {
                    assert(!user_access(vm.mem@, root as int, vp, write));
                    return false;
                }
                assert(user_access(vm.mem@, root as int, vp, write));
            },
            None => {
                assert(!user_access(vm.mem@, root as int, vp, write));
                return false;
            },
        }
        page = page + 4096;
    }
    assert forall|vp: int| #[trigger] in_range(ptr as int, len as int, vp) implies user_access(
        vm.mem@,
        root as int,
        vp,
        write,
    ) by {
        assert(p0 <= vp < page as int / 4096);
    }
    true
}

/// The bytes of a checked range. User pages are read under `sstatus.SUM` only.
fn read_user(vm: &Vm, hart: &Hart, root: u64, ptr: u64, len: u64) -> (buf: Vec<u8>)
    requires
        riscv::sum_set(hart.sstatus),
        vm.wf(),
        vm.root != 0,
        table_ok(*vm, root as int),
        len <= usize::MAX,
        user_range(vm.mem@, root as int, ptr, len as int, false),
    ensures
        buf@ == user_bytes(vm.mem@, root as int, ptr as int, len as int),
{
    let ghost r = root as int;
    let mut buf: Vec<u8> = Vec::new();
    let mut i: u64 = 0;
    while i < len
        invariant
            i <= len,
            vm.wf(),
            vm.root != 0,
            r == root,
            table_ok(*vm, r),
            user_range(vm.mem@, r, ptr, len as int, false),
            buf@ == user_bytes(vm.mem@, r, ptr as int, i as int),
        decreases len - i,
    {
        let va: u64 = ptr + i;
        let pa: u64 = user_phys(vm, root, va, Ghost(ptr), Ghost(len as int), Ghost(false));
        buf.push(vm.mem.read_byte(pa));
        i = i + 1;
        assert(buf@ =~= user_bytes(vm.mem@, r, ptr as int, i as int));
    }
    buf
}

/// The `len` bytes at the virtual address `ptr`.
pub open spec fn user_bytes(m: Map<int, u64>, root: int, ptr: int, len: int) -> Seq<u8> {
    Seq::new(len as nat, |i: int| physmem::byte_at(m, phys(m, root, ptr + i)))
}

/// Copy `len` bytes at the user address `ptr` of the address space `root`,
/// under `sstatus.SUM`. None, before any byte is read, unless the whole range
/// is mapped for user mode.
pub fn copy_from_user(vm: &Vm, hart: &mut Hart, root: u64, ptr: u64, len: u64) -> (bytes: Option<
    Vec<u8>,
>)
    requires
        vm.wf(),
        vm.root != 0,
        table_ok(*vm, root as int),
        len <= usize::MAX,
    ensures
        bytes is Some <==> user_range(vm.mem@, root as int, ptr, len as int, false),
        bytes matches Some(b) ==> b@ == user_bytes(
            vm.mem@,
            root as int,
            ptr as int,
            len as int,
        ),
        *final(hart) == *old(hart),
{
    if !check_range(vm, root, ptr, len, false) {
        return None;
    }
    let read = |h: &Hart| -> (buf: Vec<u8>)
        requires
            riscv::sum_set(h.sstatus),
            vm.wf(),
            vm.root != 0,
            table_ok(*vm, root as int),
            len <= usize::MAX,
            user_range(vm.mem@, root as int, ptr, len as int, false),
        ensures
            buf@ == user_bytes(vm.mem@, root as int, ptr as int, len as int),
    {
        read_user(vm, h, root, ptr, len)
    };
    proof {
        riscv::lemma_sum(hart.sstatus);
    }
    let buf: Vec<u8> = riscv::with_sum(hart, read);
    Some(buf)
}

/// The physical address behind an address of a checked range.
fn user_phys(
    vm: &Vm,
    root: u64,
    va: u64,
    Ghost(ptr): Ghost<u64>,
    Ghost(len): Ghost<int>,
    Ghost(write): Ghost<bool>,
) -> (pa: u64)
    requires
        vm.wf(),
        vm.root != 0,
        table_ok(*vm, root as int),
        user_range(vm.mem@, root as int, ptr, len, write),
        ptr <= va < ptr + len,
    ensures
        pa == phys(vm.mem@, root as int, va as int),
        physmem::byte_addr(pa as int),
{
    let ghost vp = va as int / 4096;
    proof {
        lemma_range_page(ptr as int, len, va as int);
        assert(sv39::page_idx(vp));
        lemma_access_private(*vm, root as int, vp, write);
        lemma_table_tree(*vm, root as int);
    }
    let (pa, _) = vm::translate(&vm.mem, root, va).unwrap();
    proof {
        let f = uvm::frame(vm.mem@, root as int, vp) as u64;
        let o = va % 4096;
        assert(f % 4096 == 0 && o < 4096 ==> (f | o) == f + o) by (bit_vector);
    }
    pa
}

/// Is the page at `p` behind a page of the range?
pub open spec fn range_frame(m: Map<int, u64>, root: int, ptr: int, len: int, p: int) -> bool {
    exists|vp: int| #[trigger] in_range(ptr, len, vp) && uvm::frame(m, root, vp) == p
}

/// What writing `src` to the user address `ptr` does to memory: each byte of
/// it stands at the physical address behind its virtual one, and no other byte
/// has changed.
pub open spec fn user_written(
    m: Map<int, u64>,
    m2: Map<int, u64>,
    root: int,
    ptr: int,
    src: Seq<u8>,
) -> bool {
    &&& forall|i: int|
        0 <= i < src.len() ==> physmem::byte_at(m2, #[trigger] phys(m, root, ptr + i)) == src[i]
    &&& forall|b: int|
        (forall|i: int| 0 <= i < src.len() ==> #[trigger] phys(m, root, ptr + i) != b)
            ==> #[trigger] physmem::byte_at(m2, b) == physmem::byte_at(m, b)
}

/// Different addresses of a checked range stand for different bytes.
proof fn lemma_phys_distinct(vm: Vm, root: int, ptr: u64, len: int, i: int, k: int)
    requires
        vm.wf(),
        vm.root != 0,
        table_ok(vm, root),
        user_range(vm.mem@, root, ptr, len, true),
        0 <= i < len,
        0 <= k < len,
        i != k,
    ensures
        phys(vm.mem@, root, ptr + i) != phys(vm.mem@, root, ptr + k),
{
    let m = vm.mem@;
    let vi = (ptr + i) / 4096;
    let vk = (ptr + k) / 4096;
    lemma_range_page(ptr as int, len, ptr + i);
    lemma_range_page(ptr as int, len, ptr + k);
    assert(sv39::page_idx(vi) && sv39::page_idx(vk));
    lemma_access_private(vm, root, vi, true);
    lemma_access_private(vm, root, vk, true);
    if vi != vk {
        uvm::lemma_user_page(m, root, vm.root as int, vm.start(), vi);
        assert(uvm::frame(m, root, vk) != uvm::frame(m, root, vi));
    }
}

/// Writing only to the frames of a checked range keeps the system sound.
pub proof fn lemma_written(vm1: Vm, vm2: Vm, root: int, ptr: u64, len: int)
    requires
        vm1.wf(),
        vm1.root != 0,
        table_ok(vm1, root),
        user_range(vm1.mem@, root, ptr, len, true),
        vm2.image == vm1.image,
        vm2.root == vm1.root,
        vm2.kmem == vm1.kmem,
        vm2.mem.wf(),
        forall|a: int|
            !range_frame(vm1.mem@, root, ptr as int, len, sv39::page_of(a))
                ==> #[trigger] vm2.mem@[a] == vm1.mem@[a],
    ensures
        vm2.wf(),
        table_ok(vm2, root),
        sv39::same_tree(vm1.mem@, vm2.mem@, root),
        root != vm1.root ==> forall|p: int| #[trigger]
            uvm::owns(vm2.mem@, root, p) <==> uvm::owns(vm1.mem@, root, p),
{
    let m1 = vm1.mem@;
    let m2 = vm2.mem@;
    let kr = vm1.root as int;
    assert forall|p: int| range_frame(m1, root, ptr as int, len, p) implies sv39::off_tables(
        m1,
        root,
        p,
    ) && sv39::off_tables(m1, kr, p) && root != kr && uvm::owns(m1, root, p) && uvm::space(
        vm1,
        root,
    ) by {
        let vp = choose|vp: int| #[trigger] in_range(ptr as int, len, vp) && uvm::frame(
            m1,
            root,
            vp,
        ) == p;
        assert(sv39::page_idx(vp));
        lemma_access_private(vm1, root, vp, true);
    }
    kalloc::lemma_pages(vm1.kmem, m1);
    assert forall|p: int| #[trigger] vm1.kmem.pages().contains(p) implies m2[p] == m1[p] by {
        sv39::lemma_page_of(p, 0);
        if range_frame(m1, root, ptr as int, len, p) {
            assert(uvm::owns(m1, root, p));
        }
    }
    kalloc::lemma_frame(vm1.kmem, m1, m2);
    assert forall|p: int| #[trigger] vm2.kmem.pages().contains(p) implies sv39::off_tables(
        m1,
        kr,
        p,
    ) by {}
    uvm::lemma_kernel_keep(vm1, vm2);
    sv39::lemma_frame(m1, m2, kr);
    if root != kr {
        uvm::lemma_user_frame(m1, m2, root, kr, vm1.start());
    }
}

/// The word that holds the `o`-th byte of a page.
proof fn lemma_word_start(f: int, o: int)
    requires
        f % 4096 == 0,
        0 <= o < 4096,
    ensures
        (f + o) - (f + o) % 8 == f + (o - o % 8),
        0 <= o - o % 8 < 4096,
{
    assert((f + o) % 8 == o % 8);
}

/// A byte of a checked range lies on one of its frames.
#[verifier::spinoff_prover]
#[verifier::rlimit(30)]
proof fn lemma_phys_frame(vm: Vm, root: int, ptr: u64, len: int, i: int)
    requires
        vm.wf(),
        vm.root != 0,
        table_ok(vm, root),
        user_range(vm.mem@, root, ptr, len, true),
        0 <= i < len,
    ensures
        ({
            let b = phys(vm.mem@, root, ptr + i);
            range_frame(vm.mem@, root, ptr as int, len, sv39::page_of(b - b % 8))
        }),
{
    let m = vm.mem@;
    let vp = (ptr + i) / 4096;
    let b = phys(m, root, ptr + i);
    lemma_range_page(ptr as int, len, ptr + i);
    assert(sv39::page_idx(vp));
    lemma_access_private(vm, root, vp, true);
    let f = uvm::frame(m, root, vp);
    let o = (ptr + i) % 4096;
    assert(b == f + o);
    lemma_word_start(f, o);
    sv39::lemma_page_of(f, o - o % 8);
    assert(in_range(ptr as int, len, vp) && f == sv39::page_of(b - b % 8));
}

/// Write `src` to a checked range. User pages are written under `sstatus.SUM`
/// only.
#[verifier::rlimit(60)]
fn write_user(vm: &mut Vm, hart: &Hart, root: u64, ptr: u64, src: &[u8])
    requires
        riscv::sum_set(hart.sstatus),
        old(vm).wf(),
        old(vm).root != 0,
        table_ok(*old(vm), root as int),
        user_range(old(vm).mem@, root as int, ptr, src@.len() as int, true),
    ensures
        final(vm).wf(),
        final(vm).image == old(vm).image,
        final(vm).root == old(vm).root,
        final(vm).kmem == old(vm).kmem,
        table_ok(*final(vm), root as int),
        sv39::same_tree(old(vm).mem@, final(vm).mem@, root as int),
        user_written(old(vm).mem@, final(vm).mem@, root as int, ptr as int, src@),
        forall|a: int|
            !range_frame(
                old(vm).mem@,
                root as int,
                ptr as int,
                src@.len() as int,
                sv39::page_of(a),
            ) ==> #[trigger] final(vm).mem@[a] == old(vm).mem@[a],
{
    let len: usize = src.len();
    let ghost vm0 = *vm;
    let ghost m0 = vm.mem@;
    let ghost r = root as int;
    let ghost l = src@.len() as int;
    let mut i: usize = 0;
    while i < len
        invariant
            i <= len,
            len == src@.len(),
            l == len,
            r == root,
            vm0.wf(),
            vm0.root != 0,
            m0 == vm0.mem@,
            table_ok(vm0, r),
            user_range(m0, r, ptr, l, true),
            vm.image == vm0.image,
            vm.root == vm0.root,
            vm.kmem == vm0.kmem,
            vm.mem.wf(),
            user_written(m0, vm.mem@, r, ptr as int, src@.take(i as int)),
            forall|a: int|
                !range_frame(m0, r, ptr as int, l, sv39::page_of(a)) ==> #[trigger] vm.mem@[a]
                    == m0[a],
        decreases len - i,
    {
        let va: u64 = ptr + i as u64;
        let ghost m1 = vm.mem@;
        proof {
            lemma_written(vm0, *vm, r, ptr, l);
            lemma_same_range(m0, m1, r, ptr, l);
            lemma_phys_frame(vm0, r, ptr, l, i as int);
            assert(sv39::page_idx(va as int / 4096));
            assert(phys(m1, r, va as int) == phys(m0, r, ptr + i));
        }
        let pa: u64 = user_phys(vm, root, va, Ghost(ptr), Ghost(l), Ghost(true));
        vm.mem.write_byte(pa, src[i]);
        proof {
            let s1 = src@.take(i as int);
            let s2 = src@.take(i as int + 1);
            assert forall|k: int| 0 <= k < s2.len() implies physmem::byte_at(
                vm.mem@,
                #[trigger] phys(m0, r, ptr + k),
            ) == s2[k] by {
                if k < i {
                    assert(s1[k] == s2[k]);
                    lemma_phys_distinct(vm0, r, ptr, l, i as int, k);
                    assert(physmem::byte_at(m1, phys(m0, r, ptr + k)) == s1[k]);
                }
            }
            assert forall|b: int|
                (forall|k: int|
                    0 <= k < s2.len() ==> #[trigger] phys(m0, r, ptr + k)
                        != b) implies #[trigger] physmem::byte_at(vm.mem@, b) == physmem::byte_at(
                m0,
                b,
            ) by {
                assert(phys(m0, r, ptr + i) != b);
                assert(forall|k: int|
                    0 <= k < s1.len() ==> #[trigger] phys(m0, r, ptr + k) != b);
                assert(physmem::byte_at(m1, b) == physmem::byte_at(m0, b));
            }
        }
        i = i + 1;
    }
    proof {
        assert(src@.take(l) =~= src@);
        lemma_written(vm0, *vm, r, ptr, l);
    }
}

/// Copy `src` to the user address `ptr` of the address space `root`, under
/// `sstatus.SUM`. Returns the number of bytes written; None, with nothing
/// written, unless the whole range is mapped for user mode and writable.
pub fn copy_to_user(vm: &mut Vm, hart: &mut Hart, root: u64, ptr: u64, src: &[u8]) -> (n: Option<
    u64,
>)
    requires
        old(vm).wf(),
        old(vm).root != 0,
        table_ok(*old(vm), root as int),
    ensures
        final(vm).wf(),
        final(vm).image == old(vm).image,
        final(vm).root == old(vm).root,
        final(vm).kmem == old(vm).kmem,
        table_ok(*final(vm), root as int),
        sv39::same_tree(old(vm).mem@, final(vm).mem@, root as int),
        n is Some <==> user_range(old(vm).mem@, root as int, ptr, src@.len() as int, true),
        n matches Some(k) ==> k == src@.len() && user_written(
            old(vm).mem@,
            final(vm).mem@,
            root as int,
            ptr as int,
            src@,
        ),
        n is None ==> *final(vm) == *old(vm),
        forall|a: int|
            !range_frame(
                old(vm).mem@,
                root as int,
                ptr as int,
                src@.len() as int,
                sv39::page_of(a),
            ) ==> #[trigger] final(vm).mem@[a] == old(vm).mem@[a],
        *final(hart) == *old(hart),
{
    let len: usize = src.len();
    if !check_range(vm, root, ptr, len as u64, true) {
        return None;
    }
    proof {
        riscv::lemma_sum(hart.sstatus);
    }
    let had_sum: bool = riscv::sum_on(hart);
    write_user(vm, hart, root, ptr, src);
    riscv::sum_restore(hart, had_sum);
    Some(len as u64)
}

/// A range is as accessible as before when the tables are as before.
proof fn lemma_same_range(m1: Map<int, u64>, m2: Map<int, u64>, root: int, ptr: u64, len: int)
    requires
        sv39::same_tree(m1, m2, root),
        user_range(m1, root, ptr, len, true),
    ensures
        user_range(m2, root, ptr, len, true),
{
    assert forall|vp: int| #[trigger] in_range(ptr as int, len, vp) implies user_access(
        m2,
        root,
        vp,
        true,
    ) by {
        assert(sv39::page_idx(vp));
        assert(user_access(m1, root, vp, true));
    }
}

/// What a copy to a process's memory changes is the page allocator's.
pub proof fn lemma_range_managed(vm: Vm, root: int, ptr: u64, len: int, p: int)
    requires
        vm.wf(),
        vm.root != 0,
        table_ok(vm, root),
        user_range(vm.mem@, root, ptr, len, true),
        range_frame(vm.mem@, root, ptr as int, len, p),
    ensures
        kalloc::managed(vm.start(), p),
{
    let vp = choose|vp: int| #[trigger] in_range(ptr as int, len, vp) && uvm::frame(
        vm.mem@,
        root,
        vp,
    ) == p;
    assert(sv39::page_idx(vp));
    lemma_access_private(vm, root, vp, true);
}

/// A copy to one process's memory concerns no other process.
pub proof fn lemma_copy_spaces(
    vm1: Vm,
    vm2: Vm,
    procs: Seq<Option<Process>>,
    root: int,
    ptr: u64,
    len: int,
)
    requires
        uproc::spaces(vm1, procs),
        root == vm1.root || exists|c: int| #[trigger] uproc::table_at(procs, c) == root,
        table_ok(vm1, root),
        user_range(vm1.mem@, root, ptr, len, true),
        vm2.image == vm1.image,
        vm2.root == vm1.root,
        vm2.kmem == vm1.kmem,
        vm2.mem.wf(),
        forall|a: int|
            !range_frame(vm1.mem@, root, ptr as int, len, sv39::page_of(a))
                ==> #[trigger] vm2.mem@[a] == vm1.mem@[a],
    ensures
        uproc::spaces(vm2, procs),
{
    lemma_written(vm1, vm2, root, ptr, len);
    let m1 = vm1.mem@;
    assert forall|p: int| #[trigger] range_frame(m1, root, ptr as int, len, p) implies root
        != vm1.root && uvm::owns(m1, root, p) by {
        let vp = choose|vp: int| #[trigger] in_range(ptr as int, len, vp) && uvm::frame(
            m1,
            root,
            vp,
        ) == p;
        assert(sv39::page_idx(vp));
        lemma_access_private(vm1, root, vp, true);
    }
    if root == vm1.root {
        // Nothing was written: the kernel's table has no user page.
        assert forall|a: int| #[trigger] vm2.mem@[a] == m1[a] by {}
        lemma_nothing(vm1, vm2, procs);
    } else {
        let c = choose|c: int| #[trigger] uproc::table_at(procs, c) == root;
        assert(uproc::tables(procs)[c] == root);
        assert(root >= 0) by {
            uvm::lemma_shared(m1, root, vm1.root as int, vm1.start());
        }
        uproc::lemma_family_step(vm1, vm2, uproc::tables(procs), c);
    }
}

/// Where no word has changed, neither has any address space.
proof fn lemma_nothing(vm1: Vm, vm2: Vm, procs: Seq<Option<Process>>)
    requires
        uproc::spaces(vm1, procs),
        vm2.wf(),
        vm2.image == vm1.image,
        vm2.root == vm1.root,
        vm2.kmem == vm1.kmem,
        forall|a: int| #[trigger] vm2.mem@[a] == vm1.mem@[a],
    ensures
        uproc::spaces(vm2, procs),
{
    physmem::lemma_total(vm1.mem);
    physmem::lemma_total(vm2.mem);
    assert(vm2.mem@ =~= vm1.mem@);
    reveal(uproc::family);
}

} // verus!
