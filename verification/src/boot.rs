//! Bringing the kernel up, with a self-test for every part as it comes to
//! life.
use vstd::prelude::*;
use vstd::arithmetic::power2;

use crate::console::Console;
use crate::fs;
use crate::fs::Fs;
use crate::heap;
use crate::heap::Heap;
use crate::kalloc;
use crate::kernel;
use crate::kernel::{Kernel, Program};
use crate::loader;
use crate::memlayout;
use crate::memlayout::{KernelImage, DRAM_BASE, HEAP_SIZE, PAGE_SIZE, PHYS_TOP, UART0};
use crate::physmem;
use crate::physmem::Memory;
use crate::pool;
use crate::proc;
use crate::proc::{Entry, Process, Scheduler, State, KSTACK_SIZE};
use crate::riscv;
use crate::riscv::Hart;
use crate::spinlock;
use crate::sv39;
use crate::sv39::{PTE_W, PTE_X};
use crate::sync;
use crate::text;
use crate::timer::Timer;
use crate::trap;
use crate::uproc;
use crate::user;
use crate::user::Images;
use crate::uvm::USER_TEXT;
use crate::vm;
use crate::vm::Vm;

verus! {

/// The first word of a flattened device tree, big-endian.
pub const DTB_MAGIC: u32 = 0xd00d_feed;

/// The big-endian word in the four bytes of `b` from `i` on.
pub open spec fn be32(b: Seq<u8>, i: int) -> int {
    b[i] * 0x100_0000 + b[i + 1] * 0x1_0000 + b[i + 2] * 0x100 + b[i + 3]
}

/// The big-endian word in the four bytes of `b` from `i` on.
fn read_be32(b: &[u8; 8], i: usize) -> (w: u64)
    requires
        i <= 4,
    ensures
        w == be32(b@, i as int),
        w <= u32::MAX,
{
    b[i] as u64 * 0x100_0000 + b[i + 1] as u64 * 0x1_0000 + b[i + 2] as u64 * 0x100 + b[i
        + 3] as u64
}

/// The firmware parks the flattened device tree near the top of RAM, inside the
/// page allocator's range. The range it takes, from the first eight bytes of
/// its header (magic, then total size); None if there is no valid tree at
/// `dtb`.
pub fn dtb_reserved(dtb: u64, header: &[u8; 8]) -> (range: Option<(u64, u64)>)
    requires
        be32(header@, 0) == DTB_MAGIC ==> dtb + be32(header@, 4) <= u64::MAX,
    ensures
        range == if dtb >= DRAM_BASE && be32(header@, 0) == DTB_MAGIC {
            Some((dtb, (dtb + be32(header@, 4)) as u64))
        } else {
            None
        },
{
    let magic: u64 = read_be32(header, 0);
    let size: u64 = read_be32(header, 4);
    if dtb >= DRAM_BASE && magic == DTB_MAGIC as u64 {
        Some((dtb, dtb + size))
    } else {
        None
    }
}

/// The free list once two pages were taken off it and given back in the order
/// in which they came.
pub open spec fn swapped(pages: Seq<int>) -> Seq<int> {
    seq![pages[1], pages[0]] + pages.skip(2)
}

/// Is the page at `pa` all zeroes?
fn page_zeroed(mem: &Memory, pa: u64) -> (zero: bool)
    requires
        mem.wf(),
        memlayout::dram_page(pa as int),
    ensures
        zero == forall|k: int|
            0 <= k < 4096 && k % 8 == 0 ==> #[trigger] mem@[pa + k] == 0,
{
    let mut k: u64 = 0;
    while k < PAGE_SIZE
        invariant
            k <= 4096,
            k % 8 == 0,
            mem.wf(),
            memlayout::dram_page(pa as int),
            forall|j: int| 0 <= j < k && j % 8 == 0 ==> #[trigger] mem@[pa + j] == 0,
        decreases 4096 - k,
    {
        if mem.read(pa + k) != 0 {
            assert(mem@[pa + k as int] != 0);
            return false;
        }
        k = k + 8;
    }
    true
}

/// Exercise the page allocator: two pages come back distinct and zeroed, and
/// can be given back.
#[verifier::spinoff_prover]
#[verifier::rlimit(40)]
pub fn kalloc_self_test(vm: &mut Vm) -> (ok: bool)
    requires
        old(vm).wf(),
        old(vm).root == 0,
        old(vm).kmem.pages().len() >= 2,
    ensures
        ok,
        final(vm).wf(),
        final(vm).image == old(vm).image,
        final(vm).root == 0,
        final(vm).kmem.pages() == swapped(old(vm).kmem.pages()),
        forall|a: int|
            !old(vm).kmem.pages().contains(sv39::page_of(a)) ==> #[trigger] final(vm).mem@[a]
                == old(vm).mem@[a],
{
    let ghost pages = vm.kmem.pages();
    let ghost m0 = vm.mem@;
    proof {
        kalloc::lemma_pages(vm.kmem, vm.mem@);
        lemma_first_two(pages);
    }
    let a: u64 = kalloc::alloc_page(&mut vm.kmem, &mut vm.mem).unwrap();
    let ghost m1 = vm.mem@;
    let b: u64 = kalloc::alloc_page(&mut vm.kmem, &mut vm.mem).unwrap();
    let ghost m2 = vm.mem@;
    proof {
        lemma_zeroed(m0, a as int, b as int);
    }
    let ok: bool = a != b && page_zeroed(&vm.mem, a);
    kalloc::free(&mut vm.kmem, &mut vm.mem, a);
    let ghost m3 = vm.mem@;
    kalloc::free(&mut vm.kmem, &mut vm.mem, b);
    proof {
        assert(vm.kmem.pages() =~= swapped(pages));
        assert forall|x: int| !pages.contains(sv39::page_of(x)) implies #[trigger] vm.mem@[x]
            == m0[x] by {
            lemma_outside(a as int, x);
            lemma_outside(b as int, x);
            assert(m1[x] == m0[x]);
            assert(m2[x] == m1[x]);
            assert(m3[x] == m2[x]);
        }
    }
    ok
}

/// A page that was cleared stays clear while another one is.
proof fn lemma_zeroed(m: Map<int, u64>, a: int, b: int)
    requires
        memlayout::dram_page(a),
    ensures
        forall|k: int|
            0 <= k < 4096 && k % 8 == 0 ==> #[trigger] physmem::page_filled(
                physmem::page_filled(m, a, 0),
                b,
                0,
            )[a + k] == 0,
{
    assert forall|k: int| 0 <= k < 4096 && k % 8 == 0 implies #[trigger] physmem::page_filled(
        physmem::page_filled(m, a, 0),
        b,
        0,
    )[a + k] == 0 by {
        kalloc::lemma_offset(a, k);
    }
}

/// The first two of a list of distinct pages are not among the others.
proof fn lemma_first_two(pages: Seq<int>)
    requires
        pages.no_duplicates(),
        pages.len() >= 2,
    ensures
        pages.contains(pages[0]),
        pages.contains(pages[1]),
        pages[0] != pages[1],
        pages.drop_first()[0] == pages[1],
        pages.drop_first().drop_first() == pages.skip(2),
        !pages.skip(2).contains(pages[0]),
        !(seq![pages[0]] + pages.skip(2)).contains(pages[1]),
{
    let rest = pages.skip(2);
    assert(pages.drop_first().drop_first() =~= rest);
    assert forall|i: int| 0 <= i < rest.len() implies rest[i] != pages[0] && #[trigger] rest[i]
        != pages[1] by {
        assert(rest[i] == pages[i + 2]);
    }
}

/// An address outside a page is on another page.
proof fn lemma_outside(p: int, a: int)
    requires
        memlayout::dram_page(p),
        sv39::page_of(a) != p,
    ensures
        !(p <= a < p + 4096),
{
    if p <= a < p + 4096 {
        sv39::lemma_page_of(p, a - p);
    }
}

/// Least privilege holds of the table at `root`: text is mapped to itself, R-X;
/// read-only data is neither writable nor executable; data is writable and not
/// executable; the serial port is writable; the user region is a hole.
pub open spec fn least_privilege(m: Map<int, u64>, root: int, image: KernelImage) -> bool {
    &&& (vm::translation(m, root, image.text_start) matches Some((pa, e)) && pa
        == image.text_start && e & PTE_X != 0 && e & PTE_W == 0)
    &&& (vm::translation(m, root, image.rodata_start) matches Some((_, e)) && e & PTE_W == 0 && e
        & PTE_X == 0)
    &&& (vm::translation(m, root, image.data_start) matches Some((_, e)) && e & PTE_W != 0 && e
        & PTE_X == 0)
    &&& (vm::translation(m, root, UART0) matches Some((_, e)) && e & PTE_W != 0)
    &&& vm::translation(m, root, USER_TEXT) is None
}

/// Least privilege holds of the kernel's table.
pub proof fn lemma_least_privilege(vm: Vm)
    requires
        vm.wf(),
        vm.root != 0,
    ensures
        least_privilege(vm.mem@, vm.root as int, vm.image),
{
    vm::lemma_kernel_map(vm, vm.image.text_start);
    vm::lemma_kernel_map(vm, vm.image.rodata_start);
    vm::lemma_kernel_map(vm, vm.image.data_start);
    vm::lemma_kernel_map(vm, UART0);
    vm::lemma_kernel_map(vm, USER_TEXT);
}

/// Software-walk the table at `root` and check that least privilege holds.
pub fn vm_self_test(mem: &Memory, root: u64, image: &KernelImage) -> (ok: bool)
    requires
        mem.wf(),
        sv39::tree(mem@, root as int),
        image.wf(),
    ensures
        ok == least_privilege(mem@, root as int, *image),
{
    let text: bool = match vm::translate(mem, root, image.text_start) {
        Some((pa, pte)) => pa == image.text_start && pte & PTE_X != 0 && pte & PTE_W == 0,
        None => false,
    };
    let rodata: bool = match vm::translate(mem, root, image.rodata_start) {
        Some((_, pte)) => pte & PTE_W == 0 && pte & PTE_X == 0,
        None => false,
    };
    let data: bool = match vm::translate(mem, root, image.data_start) {
        Some((_, pte)) => pte & PTE_W != 0 && pte & PTE_X == 0,
        None => false,
    };
    let uart: bool = match vm::translate(mem, root, UART0) {
        Some((_, pte)) => pte & PTE_W != 0,
        None => false,
    };
    let hole: bool = vm::translate(mem, root, USER_TEXT).is_none();
    text && rodata && data && uart && hole
}

/// Do allocations of these sizes and alignments, one inside the other's
/// lifetime, all find a block?
pub open spec fn nested_fit(
    blocks: Seq<(int, int)>,
    sizes: Seq<(u64, u64)>,
    i: int,
) -> bool
    decreases sizes.len() - i,
{
    if i >= sizes.len() {
        true
    } else {
        let need = heap::need_of(sizes[i].0 as int);
        let al = heap::align_of(sizes[i].1 as int);
        let k = heap::first_fit(blocks, need, al, 0);
        k < blocks.len() && nested_fit(heap::carved(blocks, k, need, al), sizes, i + 1)
    }
}

/// Allocate for the sizes from the `i`-th on, then free in reverse order:
/// everything dropped, the free list is what it was.
fn nested(heap: &mut Heap, mem: &mut Memory, sizes: &Vec<(u64, u64)>, i: usize) -> (ok: bool)
    requires
        old(mem).wf(),
        old(heap).wf(old(mem)@),
        i <= sizes@.len(),
        forall|k: int|
            0 <= k < sizes@.len() ==> power2::is_pow2((#[trigger] sizes@[k]).1 as int)
                && sizes@[k].0 + sizes@[k].1 - 1 <= heap::LAYOUT_MAX,
    ensures
        ok == nested_fit(old(heap).blocks(), sizes@, i as int),
        final(mem).wf(),
        final(heap).wf(final(mem)@),
        final(heap).start() == old(heap).start(),
        final(heap).blocks() == old(heap).blocks(),
        forall|a: int|
            !heap::in_free(old(heap).blocks(), a) ==> #[trigger] final(mem)@[a] == old(mem)@[a],
    decreases sizes@.len() - i,
{
    if i == sizes.len() {
        return true;
    }
    let ghost b0 = heap.blocks();
    let ghost lo = heap.start();
    assert(power2::is_pow2(sizes@[i as int].1 as int));
    let user: u64 = heap::alloc_inner(heap, mem, sizes[i].0, sizes[i].1);
    if user == 0 {
        return false;
    }
    let ghost b1 = heap.blocks();
    let ghost m1 = mem@;
    let ok: bool = nested(heap, mem, sizes, i + 1);
    proof {
        let need = heap::need_of(sizes@[i as int].0 as int);
        let al = heap::align_of(sizes@[i as int].1 as int);
        let k = heap::first_fit(b0, need, al, 0);
        heap::lemma_request(sizes@[i as int].0 as int, sizes@[i as int].1 as int);
        heap::lemma_first_fit(b0, need, al, 0);
        assert(heap::layout(b0, lo)) by {
            heap::lemma_blocks(*old(heap), old(mem)@);
        }
        heap::lemma_alloc_dealloc(b0, lo, k, need, al);
        let t = heap::taken(b0[k], need, al);
        assert(!heap::in_free(b1, user - 16) && !heap::in_free(b1, user - 8)) by {
            lemma_header_clear(m1, b1, lo, user as int);
        }
        assert(heap::live(mem@, b1, lo, user as int));
        assert forall|a: int| !heap::in_free(b0, a) implies !heap::in_free(b1, a) && !(t.0 <= a
            < t.1) by {
            heap::lemma_carved_from(b0, lo, k, need, al, a);
        }
    }
    heap::dealloc_inner(heap, mem, user);
    ok
}

/// The header of a live allocation lies in no free block.
proof fn lemma_header_clear(m: Map<int, u64>, blocks: Seq<(int, int)>, lo: int, user: int)
    requires
        heap::live(m, blocks, lo, user),
    ensures
        !heap::in_free(blocks, user - 16),
        !heap::in_free(blocks, user - 8),
{
    if heap::in_free(blocks, user - 16) {
        let i = choose|i: int|
            0 <= i < blocks.len() && (#[trigger] blocks[i]).0 <= user - 16 < blocks[i].0
                + blocks[i].1;
        assert(blocks[i].0 <= user - 16);
    }
    if heap::in_free(blocks, user - 8) {
        let i = choose|i: int|
            0 <= i < blocks.len() && (#[trigger] blocks[i]).0 <= user - 8 < blocks[i].0
                + blocks[i].1;
        assert(blocks[i].0 <= user - 8);
    }
}

/// A request that is not specially aligned comes off the front of a single free
/// block.
proof fn lemma_from_front(b: (int, int), size: int, align: int)
    requires
        b.0 % 16 == 0,
        1 <= size,
        align <= 16,
        size + 64 <= b.1,
    ensures
        ({
            let need = heap::need_of(size);
            let al = heap::align_of(align);
            &&& size <= need < size + 16
            &&& need % 16 == 0
            &&& heap::first_fit(seq![b], need, al, 0) == 0
            &&& heap::carved(seq![b], 0, need, al) == seq![(b.0 + 16 + need, b.1 - 16 - need)]
        }),
{
    let need = heap::need_of(size);
    let al = heap::align_of(align);
    heap::lemma_up(size, 16);
    heap::lemma_up(b.0 + 16, 16);
    assert(al == 16);
    assert(heap::user_at(b, al) == b.0 + 16);
    assert(heap::taken(b, need, al) == (b.0, b.0 + 16 + need));
    assert(heap::carved(seq![b], 0, need, al) =~= seq![(b.0 + 16 + need, b.1 - 16 - need)]);
}

/// Sizes and alignments of a box, a vector and a string.
pub open spec fn test_sizes() -> Seq<(u64, u64)> {
    seq![(8u64, 8u64), (8000u64, 8u64), (22u64, 1u64)]
}

/// A heap that is one free block has room for all of them.
pub proof fn lemma_test_fits(lo: int)
    requires
        lo % 16 == 0,
    ensures
        nested_fit(seq![(lo, HEAP_SIZE as int)], test_sizes(), 0),
{
    let n = HEAP_SIZE as int;
    lemma_from_front((lo, n), 8, 8);
    let n0 = heap::need_of(8);
    let b1 = (lo + 16 + n0, n - 16 - n0);
    lemma_from_front(b1, 8000, 8);
    let n1 = heap::need_of(8000);
    let b2 = (b1.0 + 16 + n1, b1.1 - 16 - n1);
    lemma_from_front(b2, 22, 1);
    reveal_with_fuel(nested_fit, 4);
}

/// Exercise the heap with a box, a vector and a string: once all of them are
/// dropped, the free list has coalesced back exactly. It fails only if one of
/// them finds no block.
pub fn heap_self_test(heap: &mut Heap, mem: &mut Memory) -> (ok: bool)
    requires
        old(mem).wf(),
        old(heap).wf(old(mem)@),
    ensures
        ok == nested_fit(old(heap).blocks(), test_sizes(), 0),
        final(mem).wf(),
        final(heap).wf(final(mem)@),
        final(heap).start() == old(heap).start(),
        final(heap).blocks() == old(heap).blocks(),
        forall|a: int|
            !heap::in_free(old(heap).blocks(), a) ==> #[trigger] final(mem)@[a] == old(mem)@[a],
{
    let before: u64 = heap::free_bytes(heap, mem);
    let mut sizes: Vec<(u64, u64)> = Vec::new();
    sizes.push((8, 8));
    sizes.push((8000, 8));
    sizes.push((22, 1));
    proof {
        assert(power2::is_pow2(8) && power2::is_pow2(1)) by {
            reveal_with_fuel(power2::is_pow2, 6);
        }
        assert(sizes@ =~= test_sizes());
    }
    let fits: bool = nested(heap, mem, &sizes, 0);
    fits && heap::free_bytes(heap, mem) == before
}

/// The first eight bytes of the message of the day.
pub open spec fn greeting() -> Seq<u8> {
    seq![119u8, 101, 108, 99, 111, 109, 101, 32]
}

/// There is a message of the day that begins as it should, and no file named
/// `nonesuch`.
pub open spec fn files_sane(files: Seq<(Seq<char>, Seq<u8>)>) -> bool {
    let i = fs::find(files, "motd"@, 0);
    &&& i < files.len()
    &&& greeting().is_prefix_of(files[i].1)
    &&& fs::find(files, "nonesuch"@, 0) >= files.len()
}

/// Round-trip a known file through the ramfs read path, and look for one that
/// does not exist.
pub fn fs_self_test(fs: &mut Fs, hart: &mut Hart) -> (ok: bool)
    requires
        old(fs).wf(),
        old(hart).noff < u64::MAX,
        spinlock::hart_ok(*old(hart)),
    ensures
        ok == files_sane(old(fs).files()),
        final(fs).wf(),
        final(fs).files() == old(fs).files(),
        sync::calm(*old(hart), *final(hart)),
{
    proof {
        sync::lemma_section(*hart);
    }
    let mut buf: [u8; 8] = [0; 8];
    let known: bool = match fs::lookup(fs, hart, "motd") {
        Some(idx) => {
            proof {
                sync::lemma_section(*hart);
            }
            let n: usize = fs::read_at(fs, hart, idx, 0, &mut buf);
            n == 8 && buf[0] == 119 && buf[1] == 101 && buf[2] == 108 && buf[3] == 99 && buf[4]
                == 111 && buf[5] == 109 && buf[6] == 101 && buf[7] == 32
        },
        None => false,
    };
    proof {
        sync::lemma_section(*hart);
    }
    let phantom: bool = fs::lookup(fs, hart, "nonesuch").is_some();
    known && !phantom
}

/// The built-in files pass.
pub proof fn lemma_known_files()
    ensures
        files_sane(fs::built_in()),
{
    reveal_strlit("motd");
    reveal_strlit("readme");
    reveal_strlit("cpuinfo");
    reveal_strlit("nonesuch");
    reveal_strlit("welcome to osmium -- a RISC-V kernel in Rust\n");
    reveal_with_fuel(fs::find, 4);
    assert("motd"@.len() != "nonesuch"@.len());
    assert("readme"@.len() != "nonesuch"@.len());
    assert("cpuinfo"@.len() != "nonesuch"@.len());
    let motd = fs::motd();
    assert(motd@.len() == 45);
    assert(motd.is_ascii());
    vstd::string::is_ascii_spec_bytes(motd);
    assert(fs::built_in()[0].1.subrange(0, 8) =~= greeting());
}

// --- Boot --------------------------------------------------------------------

/// What the linker and the firmware hand over.
pub struct Machine {
    /// Where the kernel lies.
    pub image: KernelImage,
    /// Where the user programs lie.
    pub images: Images,
    /// DRAM.
    pub mem: Memory,
    /// Address of the device tree.
    pub dtb: u64,
    /// The first eight bytes there.
    pub header: [u8; 8],
    /// Address of the trap vector.
    pub vector: u64,
    /// Address of the code every thread enters first.
    pub trampoline: u64,
    /// Wait channel of the console's readers.
    pub input_chan: u64,
}

/// What there is to report of a boot.
pub struct Report {
    /// The range kept off the page allocator.
    pub reserved: Option<(u64, u64)>,
    /// Free pages before the kernel's page table was built.
    pub free_pages: u64,
    /// The kernel's root page table.
    pub root: u64,
    /// Free bytes of the heap.
    pub heap_free: u64,
    /// Files in the ramfs.
    pub files: usize,
    /// Did every self-test pass?
    pub tested: bool,
}

/// Why the kernel did not come up.
#[derive(Clone, Copy, PartialEq, Eq, Debug, Structural)]
pub enum BootError {
    /// The kernel image does not have the shape the linker script gives it.
    BadImage,
    /// A user program lies outside of the kernel image, or is too long.
    BadProgram,
    /// There are too few pages for the kernel's page table.
    OutOfPages,
}

/// The range kept off the page allocator.
pub open spec fn kept_off(m: Machine) -> Option<(u64, u64)> {
    if m.dtb >= DRAM_BASE && be32(m.header@, 0) == DTB_MAGIC {
        Some((m.dtb, (m.dtb + be32(m.header@, 4)) as u64))
    } else {
        None
    }
}

/// The free list before any page is taken off it.
pub open spec fn initial_pages(m: Machine) -> Seq<int> {
    kalloc::seeded(m.image.kernel_end + HEAP_SIZE, PHYS_TOP as int, kept_off(m))
}

/// Why the machine `m` cannot boot; None if it can.
pub open spec fn boot_error(m: Machine) -> Option<BootError> {
    if !m.image.wf() {
        Some(BootError::BadImage)
    } else if !user::images_ok(m.images, m.image.kernel_end + HEAP_SIZE) {
        Some(BootError::BadProgram)
    } else if initial_pages(m).len() < 2 || initial_pages(m).len() < vm::kernel_map_pages(m.image) {
        Some(BootError::OutOfPages)
    } else {
        None
    }
}

/// The kernel that the machine `m` comes up with: paging is on, interrupts are
/// not, and no thread exists yet.
pub open spec fn booted(m: Machine, k: Kernel) -> bool {
    let pages = swapped(initial_pages(m));
    &&& k.wf()
    &&& k.vm.image == m.image
    &&& k.vm.root == pages[0]
    &&& k.vm.kmem.pages() == pages.skip(vm::kernel_map_pages(m.image) as int)
    &&& forall|a: int| a < m.image.kernel_end ==> #[trigger] k.vm.mem@[a] == m.mem@[a]
    &&& forall|a: int|
        m.image.kernel_end + HEAP_SIZE <= a && !initial_pages(m).contains(sv39::page_of(a))
            ==> #[trigger] k.vm.mem@[a] == m.mem@[a]
    &&& k.heap.blocks() == seq![(m.image.kernel_end as int, HEAP_SIZE as int)]
    &&& k.sched.procs@ == Seq::<Option<Process>>::empty()
    &&& k.sched.current is None
    &&& k.sched.next_slot == 0
    &&& k.sched.next_pid == 1
    &&& k.sched.trampoline == m.trampoline
    &&& k.hart == (Hart {
        sstatus: 0,
        sie: 0x222,
        sepc: 0,
        stvec: m.vector,
        sscratch: 0,
        satp: vm::satp_of(k.vm.root),
        noff: 0,
        intena: k.hart.intena,
    })
    &&& k.timer.ticks() == 0
    &&& k.console.pending() == Seq::<u8>::empty()
    &&& k.console.chan == m.input_chan
    &&& k.fs.files() == fs::built_in()
    &&& k.programs@ == user::table(m.images)
}

/// The order changes, the pages do not.
proof fn lemma_swapped(pages: Seq<int>, p: int)
    requires
        pages.len() >= 2,
        swapped(pages).contains(p),
    ensures
        pages.contains(p),
{
    let i = swapped(pages).index_of(p);
    let j: int = if i == 0 {
        1
    } else if i == 1 {
        0
    } else {
        i
    };
    assert(pages[j] == p);
}

/// Memory: the page allocator, seeded and tested, and the kernel's page table.
fn boot_memory(
    image: KernelImage,
    mem: Memory,
    reserved: Option<(u64, u64)>,
) -> (r: Option<(Vm, u64, bool)>)
    requires
        image.wf(),
        mem.wf(),
    ensures
        ({
            let pages = kalloc::seeded(image.kernel_end + HEAP_SIZE, PHYS_TOP as int, reserved);
            let cost = vm::kernel_map_pages(image);
            match r {
                Some((vm, free, tested)) => {
                    &&& tested
                    &&& pages.len() >= 2
                    &&& pages.len() >= cost
                    &&& free == pages.len()
                    &&& vm.wf()
                    &&& vm.image == image
                    &&& vm.root != 0
                    &&& vm.root == pages[1]
                    &&& vm.kmem.pages() == swapped(pages).skip(cost as int)
                    &&& forall|a: int|
                        a < image.kernel_end + HEAP_SIZE ==> #[trigger] vm.mem@[a] == mem@[a]
                    &&& forall|a: int|
                        !pages.contains(sv39::page_of(a)) ==> #[trigger] vm.mem@[a] == mem@[a]
                },
                None => pages.len() < 2 || pages.len() < cost,
            }
        }),
{
    let mut vm: Vm = Vm::new(image, mem, reserved);
    let ghost vm0 = vm;
    let free: u64 = kalloc::free_pages(&vm.kmem, &vm.mem);
    let cost: u64 = vm::map_cost(&image);
    if free < 2 || free < cost {
        return None;
    }
    let tested: bool = kalloc_self_test(&mut vm);
    let ghost vm1 = vm;
    vm::init(&mut vm);
    proof {
        kalloc::lemma_pages(vm0.kmem, vm0.mem@);
        kalloc::lemma_pages(vm1.kmem, vm1.mem@);
        assert forall|a: int|
            a < image.kernel_end + HEAP_SIZE implies #[trigger] vm.mem@[a] == mem@[a] by {
            assert(sv39::page_of(a) <= a) by {
                reveal(sv39::page_of);
            }
            assert(!vm0.kmem.pages().contains(sv39::page_of(a)));
            assert(!vm1.kmem.pages().contains(sv39::page_of(a)));
            assert(vm0.mem@[a] == mem@[a]);
            assert(vm1.mem@[a] == vm0.mem@[a]);
        }
        let pages = vm0.kmem.pages();
        assert forall|p: int| #[trigger] swapped(pages).contains(p) implies pages.contains(p) by {
            lemma_swapped(pages, p);
        }
        assert forall|a: int| !pages.contains(sv39::page_of(a)) implies #[trigger] vm.mem@[a]
            == mem@[a] by {
            assert(vm0.mem@[a] == mem@[a]);
            assert(vm1.mem@[a] == vm0.mem@[a]);
        }
    }
    proof {
        lemma_least_privilege(vm);
    }
    let least: bool = vm_self_test(&vm.mem, vm::kernel_root(&vm), &vm.image);
    Some((vm, free, tested && least))
}

/// A heap that is one free block: what lies outside of it is not free, and its
/// bytes are all of them.
proof fn lemma_one_block(b: (int, int))
    ensures
        forall|a: int|
            !(b.0 <= a < b.0 + b.1) ==> !(#[trigger] heap::in_free(seq![b], a)),
        heap::total(seq![b]) == b.1,
{
    let blocks = seq![b];
    assert forall|a: int| !(b.0 <= a < b.0 + b.1) implies !(#[trigger] heap::in_free(
        blocks,
        a,
    )) by {
        if heap::in_free(blocks, a) {
            let i = choose|i: int|
                0 <= i < blocks.len() && (#[trigger] blocks[i]).0 <= a < blocks[i].0 + blocks[i].1;
            assert(blocks[i] == b);
        }
    }
    reveal_with_fuel(heap::total, 3);
}

/// The heap, in the region behind the image, seeded and tested.
#[verifier::spinoff_prover]
fn boot_heap(vm: &mut Vm) -> (r: (Heap, u64, bool))
    requires
        old(vm).wf(),
    ensures
        final(vm).wf(),
        final(vm).image == old(vm).image,
        final(vm).root == old(vm).root,
        final(vm).kmem == old(vm).kmem,
        r.0.wf(final(vm).mem@),
        r.0.start() == old(vm).image.kernel_end,
        r.0.blocks() == seq![(old(vm).image.kernel_end as int, HEAP_SIZE as int)],
        r.1 == HEAP_SIZE,
        r.2,
        forall|a: int|
            a < old(vm).image.kernel_end || old(vm).start() <= a ==> #[trigger] final(vm).mem@[a]
                == old(vm).mem@[a],
{
    let ghost vm0 = *vm;
    let mut heap: Heap = Heap::new(&vm.image);
    heap::init(&mut heap, &mut vm.mem);
    let ghost vm1 = *vm;
    proof {
        lemma_test_fits(heap.start());
    }
    let tested: bool = heap_self_test(&mut heap, &mut vm.mem);
    proof {
        let b = (vm0.image.kernel_end as int, HEAP_SIZE as int);
        lemma_one_block(b);
        assert forall|a: int| !(b.0 <= a < b.0 + b.1) implies #[trigger] vm.mem@[a]
            == vm0.mem@[a] by {
            assert(!heap::in_free(seq![b], a));
            assert(vm1.mem@[a] == vm0.mem@[a]);
        }
        uproc::lemma_low_keep(vm0, *vm);
    }
    let free: u64 = heap::free_bytes(&heap, &vm.mem);
    (heap, free, tested)
}

/// The ramfs, mounted and tested.
fn boot_fs(hart: &mut Hart) -> (r: (Fs, usize, bool))
    requires
        old(hart).noff == 0,
        spinlock::hart_ok(*old(hart)),
    ensures
        r.0.wf(),
        r.0.files() == fs::built_in(),
        r.1 == 3,
        r.2,
        sync::calm(*old(hart), *final(hart)),
{
    let mut fs: Fs = Fs::new();
    proof {
        sync::lemma_section(*hart);
    }
    fs::init(&mut fs, hart);
    proof {
        assert(fs.files() =~= fs::built_in());
        lemma_known_files();
    }
    let tested: bool = fs_self_test(&mut fs, hart);
    proof {
        sync::lemma_section(*hart);
    }
    let list: Vec<(String, usize)> = fs::list(&mut fs, hart);
    proof {
        let shown = list@.map_values(|e: (String, usize)| fs::entry_view(e));
        assert(shown.len() == list@.len());
    }
    (fs, list.len(), tested)
}

/// Bring the kernel up.
#[verifier::rlimit(60)]
pub fn boot(machine: Machine) -> (r: Result<(Kernel, Report), BootError>)
    requires
        machine.mem.wf(),
        be32(machine.header@, 0) == DTB_MAGIC ==> machine.dtb + be32(machine.header@, 4)
            <= u64::MAX,
    ensures
        match boot_error(machine) {
            Some(e) => r == Err::<(Kernel, Report), BootError>(e),
            None => r matches Ok((k, report)) && booted(machine, k) && report == (Report {
                reserved: kept_off(machine),
                free_pages: initial_pages(machine).len() as u64,
                root: k.vm.root,
                heap_free: HEAP_SIZE,
                files: 3,
                tested: true,
            }),
        },
{
    if !machine.image.check() {
        return Err(BootError::BadImage);
    }
    let end: u64 = memlayout::alloc_start(&machine.image);
    if !user::check(&machine.images, end) {
        return Err(BootError::BadProgram);
    }
    let mut hart: Hart = Hart::new();
    // The firmware delegated the traps; enabling the supervisor interrupt
    // classes (external, timer, software) is the kernel's job.
    hart.sie = riscv::SIE_SEIE | riscv::SIE_STIE | riscv::SIE_SSIE;
    assert(0x200u64 | 0x20 | 0x2 == 0x222) by (bit_vector);
    trap::init(&mut hart, machine.vector);
    // Keep the page allocator off the device tree.
    let reserved: Option<(u64, u64)> = dtb_reserved(machine.dtb, &machine.header);
    match boot_memory(machine.image, machine.mem, reserved) {
        None => Err(BootError::OutOfPages),
        Some((vm1, free_pages, memory_ok)) => {
            let mut vm: Vm = vm1;
            hart.satp = vm::init_hart(&vm);
            proof {
                riscv::lemma_sie(0);
            }
            let (heap, heap_free, heap_ok) = boot_heap(&mut vm);
            let (fs, files, fs_ok) = boot_fs(&mut hart);
            let root: u64 = vm::kernel_root(&vm);
            let k: Kernel = Kernel {
                vm,
                heap,
                sched: Scheduler::new(machine.trampoline),
                hart,
                timer: Timer::new(),
                console: Console::new(machine.input_chan),
                fs,
                programs: user::programs(&machine.images),
            };
            proof {
                lemma_no_spaces(k.vm, k.sched.procs@);
            }
            let report: Report = Report {
                reserved,
                free_pages,
                root,
                heap_free,
                files,
                tested: memory_ok && heap_ok && fs_ok,
            };
            Ok((k, report))
        },
    }
}

/// Without threads there are no address spaces to keep apart.
proof fn lemma_no_spaces(vm: Vm, procs: Seq<Option<Process>>)
    requires
        vm.wf(),
        vm.root != 0,
        procs == Seq::<Option<Process>>::empty(),
    ensures
        uproc::spaces(vm, procs),
{
    reveal(uproc::family);
}

// --- The boot workload -------------------------------------------------------

/// A thread to start.
#[derive(Clone, Copy)]
pub enum Start {
    /// A kernel thread that runs the function at `entry`.
    Thread { name: &'static str, entry: u64 },
    /// A user process that runs the program named `program`.
    User { name: &'static str, program: &'static str },
}

/// The program that `program` names.
pub open spec fn named(programs: Seq<Program>, program: &'static str) -> Program {
    programs[kernel::find_program(programs, program@, 0)]
}

/// Is there a program to start?
pub open spec fn known(programs: Seq<Program>, st: Start) -> bool {
    match st {
        Start::Thread { .. } => true,
        Start::User { program, .. } => kernel::find_program(programs, program@, 0)
            < programs.len(),
    }
}

/// Pages that starting `st` takes.
pub open spec fn price(programs: Seq<Program>, st: Start) -> int {
    match st {
        Start::Thread { .. } => 0,
        Start::User { program, .. } => loader::image_pages(named(programs, program).len as int),
    }
}

/// Pages that starting the first `n` takes.
pub open spec fn bill(programs: Seq<Program>, starts: Seq<Start>, n: int) -> int
    decreases n,
{
    if n <= 0 {
        0
    } else {
        bill(programs, starts, n - 1) + price(programs, starts[n - 1])
    }
}

/// Can the first `n` be started with that many free pages?
pub open spec fn affordable(
    programs: Seq<Program>,
    starts: Seq<Start>,
    n: int,
    pages: int,
) -> bool {
    &&& forall|i: int| 0 <= i < n ==> known(programs, #[trigger] starts[i])
    &&& bill(programs, starts, n) <= pages
}

/// The process `p` is ready to run what `st` says.
pub open spec fn ready(k: Kernel, p: Process, st: Start, pid: u64, kstack: u64) -> bool {
    match st {
        Start::Thread { name, entry } => proc::fresh_thread(
            p,
            pid,
            name,
            Entry::Kernel(entry),
            kstack,
            k.vm.root,
            k.sched.trampoline,
        ),
        Start::User { name, program } => {
            let prog = named(k.programs@, program);
            &&& uproc::user_proc(p, pid, name, kstack, p.page_table, k.sched.trampoline)
            &&& loader::loaded(
                k.vm.mem@,
                k.vm.mem@,
                p.page_table as int,
                prog.addr as int,
                prog.len as int,
            )
        },
    }
}

/// Everything but memory, the free list and the threads is what it was.
pub open spec fn undisturbed(k1: Kernel, k2: Kernel) -> bool {
    &&& k2.heap == k1.heap
    &&& k2.timer == k1.timer
    &&& k2.programs == k1.programs
    &&& k2.console == k1.console
    &&& k2.fs == k1.fs
    &&& sync::calm(k1.hart, k2.hart)
    &&& k2.vm.image == k1.vm.image
    &&& k2.vm.root == k1.vm.root
}

/// Start one thread; false if there is no such program or there are too few
/// pages for it.
#[verifier::rlimit(60)]
fn start_one(k: &mut Kernel, st: &Start, kstack: u64) -> (ok: bool)
    requires
        old(k).wf(),
        old(k).hart.noff == 0,
        old(k).sched.next_pid < u64::MAX,
        kstack + KSTACK_SIZE <= u64::MAX,
    ensures
        final(k).wf(),
        undisturbed(*old(k), *final(k)),
        ok == (known(old(k).programs@, *st) && price(old(k).programs@, *st) <= old(
            k,
        ).vm.kmem.pages().len()),
        pool::same_pool(
            old(k).vm,
            old(k).sched.procs@,
            final(k).vm,
            final(k).sched.procs@,
        ),
        if ok {
            &&& proc::grew(old(k).sched, final(k).sched)
            &&& ready(
                *final(k),
                proc::at(final(k).sched.procs@, proc::new_slot(old(k).sched.procs@))->0,
                *st,
                old(k).sched.next_pid,
                kstack,
            )
            &&& final(k).vm.kmem.pages().len() == old(k).vm.kmem.pages().len() - price(
                old(k).programs@,
                *st,
            )
            &&& forall|p: int| #[trigger]
                final(k).vm.kmem.pages().contains(p) ==> old(k).vm.kmem.pages().contains(p)
            &&& forall|a: int|
                !old(k).vm.kmem.pages().contains(sv39::page_of(a))
                    ==> #[trigger] final(k).vm.mem@[a] == old(k).vm.mem@[a]
        } else {
            &&& final(k).sched == old(k).sched
            &&& final(k).vm == old(k).vm
        },
{
    let ghost k0 = *k;
    proof {
        sync::lemma_calm(k.hart);
        sync::lemma_section(k.hart);
    }
    match *st {
        Start::Thread { name, entry } => {
            let root: u64 = vm::kernel_root(&k.vm);
            let pid: u64 = proc::spawn(&mut k.sched, &mut k.hart, name, entry, kstack, root);
            proof {
                lemma_thread_spaces(k0, k.sched);
                pool::lemma_thread_pool(k0, *k);
            }
            true
        },
        Start::User { name, program } => match kernel::program(&k.programs, program) {
            Some(prog) => {
                proof {
                    kernel::lemma_find_program(k0.programs@, program@, 0);
                }
                match user::start(k, name, &prog, kstack) {
                    Some(_) => {
                        proof {
                            pool::lemma_start_pool(
                                k0,
                                *k,
                                name,
                                prog,
                                kstack,
                                Some(k0.sched.next_pid),
                            );
                            kalloc::lemma_pages(k0.vm.kmem, k0.vm.mem@);
                            let pages = k0.vm.kmem.pages();
                            assert(pages.contains(pages[0]));
                            assert forall|a: int| a < k0.vm.start() implies #[trigger] k.vm.mem@[a]
                                == k0.vm.mem@[a] by {
                                assert(sv39::page_of(a) <= a) by {
                                    reveal(sv39::page_of);
                                }
                            }
                            loader::lemma_loaded_from(
                                k0.vm.mem@,
                                k.vm.mem@,
                                k.vm.mem@,
                                k0.vm.kmem.pages()[0],
                                prog.addr as int,
                                prog.len as int,
                            );
                        }
                        true
                    },
                    None => false,
                }
            },
            None => {
                proof {
                    kernel::lemma_find_program(k0.programs@, program@, 0);
                }
                false
            },
        },
    }
}

/// A kernel thread more takes no address space.
proof fn lemma_thread_spaces(k: Kernel, s2: Scheduler)
    requires
        k.wf(),
        proc::grew(k.sched, s2),
        proc::at(k.sched.procs@, proc::new_slot(k.sched.procs@)) is None,
        proc::at(s2.procs@, proc::new_slot(k.sched.procs@)) matches Some(p) && p.user_table is None
            && p.page_table == k.vm.root,
    ensures
        uproc::spaces(k.vm, s2.procs@),
{
    let s1 = k.sched.procs@;
    let n = proc::new_slot(s1);
    proc::lemma_first_free(s1, 0);
    assert forall|i: int| #[trigger] uproc::table_at(s2.procs@, i) == uproc::table_at(s1, i) by {
        if i != n {
            assert(proc::at(s2.procs@, i) == proc::at(s1, i));
        }
    }
    assert forall|i: int| (#[trigger] proc::at(s2.procs@, i)) is Some implies uproc::process_ok(
        proc::at(s2.procs@, i)->0,
        k.vm.root,
    ) by {
        if i != n {
            assert(proc::at(s2.procs@, i) == proc::at(s1, i));
        }
    }
    uproc::lemma_same_tables(k.vm, s1, s2.procs@);
}

/// Starting a thread leaves the others ready.
proof fn lemma_still_ready(k1: Kernel, k2: Kernel, i: int, st: Start, pid: u64, kstack: u64)
    requires
        k1.wf(),
        k2.vm.image == k1.vm.image,
        k2.vm.root == k1.vm.root,
        k2.programs == k1.programs,
        k2.sched.trampoline == k1.sched.trampoline,
        known(k1.programs@, st),
        proc::at(k1.sched.procs@, i) is Some,
        ready(k1, proc::at(k1.sched.procs@, i)->0, st, pid, kstack),
        forall|p: int| #[trigger]
            k2.vm.kmem.pages().contains(p) ==> k1.vm.kmem.pages().contains(p),
        forall|a: int|
            !k1.vm.kmem.pages().contains(sv39::page_of(a)) ==> #[trigger] k2.vm.mem@[a]
                == k1.vm.mem@[a],
    ensures
        ready(k2, proc::at(k1.sched.procs@, i)->0, st, pid, kstack),
{
    if let Start::User { name, program } = st {
        let p = proc::at(k1.sched.procs@, i)->0;
        let t = p.page_table as int;
        let prog = named(k1.programs@, program);
        let m1 = k1.vm.mem@;
        let m2 = k2.vm.mem@;
        kernel::lemma_find_program(k1.programs@, program@, 0);
        assert(kernel::program_ok(prog, k1.vm));
        assert(uproc::table_at(k1.sched.procs@, i) == t);
        uproc::lemma_table(k1.vm, k1.sched.procs@, i);
        kalloc::lemma_pages(k1.vm.kmem, m1);
        uproc::lemma_space_keep(k1.vm, k2.vm, t);
        loader::lemma_loaded_keep(
            m1,
            m1,
            m2,
            t,
            k1.vm.root as int,
            k1.vm.start(),
            prog.addr as int,
            prog.len as int,
        );
        assert forall|a: int| a < k1.vm.start() implies #[trigger] m2[a] == m1[a] by {
            assert(sv39::page_of(a) <= a) by {
                reveal(sv39::page_of);
            }
        }
        loader::lemma_loaded_from(m1, m2, m2, t, prog.addr as int, prog.len as int);
    }
}

/// The first `n` threads of the workload are ready, one to a slot.
pub open spec fn all_ready(k: Kernel, starts: Seq<Start>, stacks: Seq<u64>, n: int) -> bool {
    &&& k.sched.procs@.len() == n
    &&& k.sched.next_pid == n + 1
    &&& forall|i: int|
        0 <= i < n ==> (#[trigger] k.sched.procs@[i]) is Some && ready(
            k,
            k.sched.procs@[i]->0,
            starts[i],
            (i + 1) as u64,
            stacks[i],
        )
}

/// One more thread is ready.
proof fn lemma_one_more(k1: Kernel, k2: Kernel, starts: Seq<Start>, stacks: Seq<u64>, n: int)
    requires
        k1.wf(),
        0 <= n < starts.len(),
        n < u64::MAX - 1,
        all_ready(k1, starts, stacks, n),
        forall|i: int| 0 <= i < n ==> known(k1.programs@, #[trigger] starts[i]),
        undisturbed(k1, k2),
        proc::grew(k1.sched, k2.sched),
        ready(
            k2,
            proc::at(k2.sched.procs@, proc::new_slot(k1.sched.procs@))->0,
            starts[n],
            k1.sched.next_pid,
            stacks[n],
        ),
        forall|p: int| #[trigger]
            k2.vm.kmem.pages().contains(p) ==> k1.vm.kmem.pages().contains(p),
        forall|a: int|
            !k1.vm.kmem.pages().contains(sv39::page_of(a)) ==> #[trigger] k2.vm.mem@[a]
                == k1.vm.mem@[a],
    ensures
        all_ready(k2, starts, stacks, n + 1),
{
    let procs = k1.sched.procs@;
    proc::lemma_first_free(procs, 0);
    assert(proc::new_slot(procs) == n) by {
        let f = proc::first_free(procs, 0);
        if f < n {
            assert(procs[f] is Some);
        }
    }
    assert forall|i: int| 0 <= i < n + 1 implies (#[trigger] k2.sched.procs@[i]) is Some && ready(
        k2,
        k2.sched.procs@[i]->0,
        starts[i],
        (i + 1) as u64,
        stacks[i],
    ) by {
        if i < n {
            assert(k2.sched.procs@[i] == procs[i]);
            assert(procs[i] is Some);
            assert(proc::at(procs, i) == procs[i]);
            assert(known(k1.programs@, starts[i]));
            lemma_still_ready(k1, k2, i, starts[i], (i + 1) as u64, stacks[i]);
        } else {
            assert(proc::at(k2.sched.procs@, n) == k2.sched.procs@[n]);
        }
    }
}

/// Start the workload: every thread gets its turn once the scheduler runs. If
/// one cannot be started, its number comes back. The processes' pages come off
/// the free list; no other memory changes, and no page is lost.
#[verifier::rlimit(60)]
pub fn start_all(k: &mut Kernel, starts: &Vec<Start>, stacks: &Vec<u64>) -> (r: Result<(), usize>)
    requires
        old(k).wf(),
        old(k).hart.noff == 0,
        old(k).sched.procs@.len() == 0,
        old(k).sched.next_pid == 1,
        stacks@.len() >= starts@.len(),
        starts@.len() < u64::MAX,
        forall|i: int|
            0 <= i < stacks@.len() ==> #[trigger] stacks@[i] + KSTACK_SIZE <= u64::MAX,
    ensures
        final(k).wf(),
        undisturbed(*old(k), *final(k)),
        final(k).sched == (Scheduler {
            procs: final(k).sched.procs,
            next_pid: final(k).sched.next_pid,
            ..old(k).sched
        }),
        forall|p: int| #[trigger]
            final(k).vm.kmem.pages().contains(p) ==> old(k).vm.kmem.pages().contains(p),
        forall|a: int|
            !old(k).vm.kmem.pages().contains(sv39::page_of(a)) ==> #[trigger] final(k).vm.mem@[a]
                == old(k).vm.mem@[a],
        pool::same_pool(
            old(k).vm,
            old(k).sched.procs@,
            final(k).vm,
            final(k).sched.procs@,
        ),
        ({
            let pages = old(k).vm.kmem.pages().len() as int;
            let n = match r {
                Ok(_) => starts@.len() as int,
                Err(i) => i as int,
            };
            &&& n <= starts@.len()
            &&& all_ready(*final(k), starts@, stacks@, n)
            &&& affordable(old(k).programs@, starts@, n, pages)
            &&& final(k).vm.kmem.pages().len() == pages - bill(old(k).programs@, starts@, n)
            &&& r is Err ==> n < starts@.len() && !affordable(
                old(k).programs@,
                starts@,
                n + 1,
                pages,
            )
        }),
{
    let ghost k0 = *k;
    let mut i: usize = 0;
    proof {
        sync::lemma_calm(k.hart);
    }
    while i < starts.len()
        invariant
            i <= starts@.len(),
            stacks@.len() >= starts@.len(),
            starts@.len() < u64::MAX,
            forall|j: int|
                0 <= j < stacks@.len() ==> #[trigger] stacks@[j] + KSTACK_SIZE <= u64::MAX,
            k.wf(),
            k0 == *old(k),
            k0.hart.noff == 0,
            undisturbed(k0, *k),
            k.sched == (Scheduler {
                procs: k.sched.procs,
                next_pid: k.sched.next_pid,
                ..k0.sched
            }),
            forall|p: int| #[trigger]
                k.vm.kmem.pages().contains(p) ==> k0.vm.kmem.pages().contains(p),
            forall|a: int|
                !k0.vm.kmem.pages().contains(sv39::page_of(a)) ==> #[trigger] k.vm.mem@[a]
                    == k0.vm.mem@[a],
            pool::same_pool(k0.vm, k0.sched.procs@, k.vm, k.sched.procs@),
            all_ready(*k, starts@, stacks@, i as int),
            affordable(
                k0.programs@,
                starts@,
                i as int,
                k0.vm.kmem.pages().len() as int,
            ),
            k.vm.kmem.pages().len() == k0.vm.kmem.pages().len() - bill(
                k0.programs@,
                starts@,
                i as int,
            ),
        decreases starts@.len() - i,
    {
        let ghost k1 = *k;
        let ok: bool = start_one(k, &starts[i], stacks[i]);
        assert(bill(k0.programs@, starts@, i + 1) == bill(k0.programs@, starts@, i as int) + price(
            k0.programs@,
            starts@[i as int],
        ));
        if !ok {
            proof {
                if affordable(
                    k0.programs@,
                    starts@,
                    i + 1,
                    k0.vm.kmem.pages().len() as int,
                ) {
                    assert(known(k0.programs@, starts@[i as int]));
                }
                assert(all_ready(*k, starts@, stacks@, i as int));
            }
            return Err(i);
        }
        proof {
            lemma_one_more(k1, *k, starts@, stacks@, i as int);
            assert forall|a: int|
                !k0.vm.kmem.pages().contains(sv39::page_of(a)) implies #[trigger] k.vm.mem@[a]
                == k0.vm.mem@[a] by {
                assert(k.vm.mem@[a] == k1.vm.mem@[a]);
            }
        }
        i = i + 1;
    }
    Ok(())
}

/// The device tree stays where it is: from boot on, and once the workload is
/// started, no page that shares a byte with it is free, and what lies there above
/// the heap is what the firmware put there.
pub proof fn lemma_tree_kept(m: Machine, k1: Kernel, k2: Kernel)
    requires
        boot_error(m) is None,
        booted(m, k1),
        forall|p: int| #[trigger]
            k2.vm.kmem.pages().contains(p) ==> k1.vm.kmem.pages().contains(p),
        forall|a: int|
            !k1.vm.kmem.pages().contains(sv39::page_of(a)) ==> #[trigger] k2.vm.mem@[a]
                == k1.vm.mem@[a],
    ensures
        forall|p: int| #[trigger]
            k1.vm.kmem.pages().contains(p) ==> !kalloc::overlaps(kept_off(m), p),
        forall|p: int| #[trigger]
            k2.vm.kmem.pages().contains(p) ==> !kalloc::overlaps(kept_off(m), p),
        forall|a: int|
            m.image.kernel_end + HEAP_SIZE <= a && kalloc::overlaps(kept_off(m), sv39::page_of(a))
                ==> #[trigger] k2.vm.mem@[a] == m.mem@[a],
{
    let all = initial_pages(m);
    let pages = swapped(all);
    let n = vm::kernel_map_pages(m.image) as int;
    kalloc::lemma_seeded(m.image.kernel_end + HEAP_SIZE, PHYS_TOP as int, kept_off(m));
    assert forall|p: int| #[trigger] k1.vm.kmem.pages().contains(p) implies !kalloc::overlaps(
        kept_off(m),
        p,
    ) by {
        let i = pages.skip(n).index_of(p);
        assert(pages[i + n] == p);
        lemma_swapped(all, p);
    }
    assert forall|a: int|
        m.image.kernel_end + HEAP_SIZE <= a && kalloc::overlaps(
            kept_off(m),
            sv39::page_of(a),
        ) implies #[trigger] k2.vm.mem@[a] == m.mem@[a] by {
        assert(!all.contains(sv39::page_of(a)));
        assert(k1.vm.mem@[a] == m.mem@[a]);
    }
}

/// Where the code of the kernel's own threads lies.
pub struct Threads {
    pub ping: u64,
    pub pong: u64,
    pub busy0: u64,
    pub busy1: u64,
    pub monitor: u64,
    pub producer: u64,
    pub consumer: u64,
    pub init: u64,
}

/// What the kernel starts at boot. The ping/pong pair proves that cooperative
/// switching round-trips; the busy spinners never yield, so the monitor thread
/// can only ever run again if timer preemption works; producer and consumer
/// share a bounded channel; the user programs exercise the syscalls; init waits
/// for all of them and becomes the shell.
pub open spec fn workload(t: Threads) -> Seq<Start> {
    seq![
        Start::Thread { name: "ping", entry: t.ping },
        Start::Thread { name: "pong", entry: t.pong },
        Start::Thread { name: "busy0", entry: t.busy0 },
        Start::Thread { name: "busy1", entry: t.busy1 },
        Start::Thread { name: "monitor", entry: t.monitor },
        Start::Thread { name: "producer", entry: t.producer },
        Start::Thread { name: "consumer", entry: t.consumer },
        Start::User { name: "u-greeter", program: "greeter" },
        Start::User { name: "u-trespasser", program: "trespasser" },
        Start::User { name: "u-badsys", program: "badsys" },
        Start::User { name: "u-uname", program: "uname" },
        Start::User { name: "u-catfile", program: "catfile" },
        Start::User { name: "u-heapgrow", program: "heapgrow" },
        Start::User { name: "u-forker", program: "forker" },
        Start::User { name: "u-forkexec", program: "forkexec" },
        Start::Thread { name: "init", entry: t.init },
    ]
}

/// What the kernel starts at boot, in order.
pub fn boot_workload(t: &Threads) -> (starts: Vec<Start>)
    ensures
        starts@ == workload(*t),
{
    let mut starts: Vec<Start> = Vec::new();
    starts.push(Start::Thread { name: "ping", entry: t.ping });
    starts.push(Start::Thread { name: "pong", entry: t.pong });
    starts.push(Start::Thread { name: "busy0", entry: t.busy0 });
    starts.push(Start::Thread { name: "busy1", entry: t.busy1 });
    starts.push(Start::Thread { name: "monitor", entry: t.monitor });
    starts.push(Start::Thread { name: "producer", entry: t.producer });
    starts.push(Start::Thread { name: "consumer", entry: t.consumer });
    starts.push(Start::User { name: "u-greeter", program: "greeter" });
    starts.push(Start::User { name: "u-trespasser", program: "trespasser" });
    starts.push(Start::User { name: "u-badsys", program: "badsys" });
    starts.push(Start::User { name: "u-uname", program: "uname" });
    starts.push(Start::User { name: "u-catfile", program: "catfile" });
    starts.push(Start::User { name: "u-heapgrow", program: "heapgrow" });
    starts.push(Start::User { name: "u-forker", program: "forker" });
    starts.push(Start::User { name: "u-forkexec", program: "forkexec" });
    starts.push(Start::Thread { name: "init", entry: t.init });
    assert(starts@ =~= workload(*t));
    starts
}

/// Is every process named `name`? Once the boot workload is done, only init
/// should be left.
pub fn only_left(list: &Vec<(u64, &'static str, State)>, name: &str) -> (only: bool)
    ensures
        only == forall|i: int| 0 <= i < list@.len() ==> (#[trigger] list@[i]).1@ == name@,
{
    let mut i: usize = 0;
    while i < list.len()
        invariant
            i <= list@.len(),
            forall|j: int| 0 <= j < i ==> (#[trigger] list@[j]).1@ == name@,
        decreases list@.len() - i,
    {
        if !text::same(list[i].1, name) {
            assert(list@[i as int].1@ != name@);
            return false;
        }
        i = i + 1;
    }
    true
}

/// The device tree is found by its magic number, and the range that is kept off the page
/// allocator is as long as its header says; both are big-endian.
pub proof fn lemma_tree_found(m: Machine)
    requires
        m.dtb + be32(m.header@, 4) <= u64::MAX,
    ensures
        kept_off(m) is Some <==> m.dtb >= 0x8000_0000 && m.header@[0] == 0xd0 && m.header@[1] == 0x0d
            && m.header@[2] == 0xfe && m.header@[3] == 0xed,
        kept_off(m) matches Some((lo, hi)) ==> lo == m.dtb && hi - lo == ((m.header@[4] * 256
            + m.header@[5]) * 256 + m.header@[6]) * 256 + m.header@[7],
{
    let b = m.header@;
    assert(be32(b, 0) == 0xd00d_feed <==> b[0] == 0xd0 && b[1] == 0x0d && b[2] == 0xfe && b[3]
        == 0xed);
}

/// The kernel comes up with paging on and no thread, in no critical section, with interrupts
/// off and its three sources of them let through; every free page is a whole page of DRAM
/// above the kernel and its heap that shares no byte with the device tree, and the pages that
/// are missing are the kernel's tables.
#[verifier::spinoff_prover]
#[verifier::rlimit(40)]
pub proof fn lemma_comes_up(m: Machine, k: Kernel, p: int)
    requires
        boot_error(m) is None,
        booted(m, k),
    ensures
        k.hart.satp == 0x8000_0000_0000_0000 | (k.vm.root >> 12u64),
        k.hart.stvec == m.vector,
        k.hart.sscratch == 0,
        k.hart.noff == 0,
        k.hart.sie == 0x222,
        k.hart.sstatus == 0,
        k.sched.current is None,
        k.sched.procs@.len() == 0,
        k.sched.next_pid == 1,
        k.timer.ticks() == 0,
        k.console.pending().len() == 0,
        heap::total(k.heap.blocks()) == 0x80_0000,
        k.vm.kmem.pages().contains(p) ==> {
            &&& p % 4096 == 0
            &&& m.image.kernel_end + 0x80_0000 <= p
            &&& p + 4096 <= 0x8800_0000
            &&& kept_off(m) matches Some((lo, hi)) ==> hi <= p || p + 4096 <= lo
        },
        k.vm.kmem.pages().len() + vm::kernel_map_pages(m.image) == initial_pages(m).len(),
        initial_pages(m).contains(p) <==> p % 4096 == 0 && m.image.kernel_end + 0x80_0000 <= p && p
            + 4096 <= 0x8800_0000 && !(kept_off(m) matches Some((lo, hi)) && p < hi && lo < p + 4096),
        initial_pages(m).no_duplicates(),
{
    let all = initial_pages(m);
    let pages = swapped(all);
    let n = vm::kernel_map_pages(m.image) as int;
    kalloc::lemma_seeded(m.image.kernel_end + HEAP_SIZE, PHYS_TOP as int, kept_off(m));
    if k.vm.kmem.pages().contains(p) {
        let i = pages.skip(n).index_of(p);
        assert(pages[i + n] == p);
        lemma_swapped(all, p);
    }
    let blocks = k.heap.blocks();
    assert(blocks.drop_last() =~= Seq::<(int, int)>::empty());
    assert(heap::total(blocks.drop_last()) == 0);
}

} // verus!
