//! The program loader: a fresh address space with a program image in it.
use vstd::prelude::*;

use crate::kalloc;
use crate::memlayout;
use crate::memlayout::{DRAM_BASE, PAGE_SIZE};
use crate::physmem;
use crate::sv39;
use crate::uvm;
use crate::uvm::{USER_STACK_TOP, USER_TEXT};
use crate::vm;
use crate::vm::{Vm, PERM_MASK, PTE_U};

verus! {

/// Permissions of user code: R-X, with the U bit.
pub const TEXT_PERM: u64 = 0x1a;

/// Permissions of user data: RW-, with the U bit.
pub const DATA_PERM: u64 = 0x16;

/// Longest image that fits below the stack page.
pub const TEXT_MAX: u64 = 0xff_f000;

/// The virtual page of the user stack.
pub const STACK_VP: u64 = 0x4_0fff;

/// Pages an image of `len` bytes takes.
pub open spec fn text_pages(len: int) -> int {
    (len + 4095) / 4096
}

/// Level-0 tables that `n` pages of code take.
pub open spec fn text_groups(n: int) -> int {
    (n + 511) / 512
}

/// Pages that loading an image of `len` bytes takes: the root, the code and
/// stack frames, one level-1 table, and a level-0 table for each 2 MiB in use.
/// The stack shares one with code that reaches up to it.
pub open spec fn image_pages(len: int) -> int {
    let n = text_pages(len);
    3 + n + if n > 3584 {
        8
    } else {
        text_groups(n) + 1
    }
}

/// The `i`-th page of code is mapped R-X for user mode and holds the image's
/// bytes, zero behind its end.
pub open spec fn text_loaded(
    m0: Map<int, u64>,
    m: Map<int, u64>,
    u: int,
    src: int,
    len: int,
    i: int,
) -> bool {
    let f = uvm::frame(m, u, 0x4_0000 + i);
    &&& f >= 0
    &&& sv39::leaf(m, u, 0x4_0000 + i) == sv39::leaf_pte(f as u64, TEXT_PERM)
    &&& forall|k: int|
        0 <= k < 4096 ==> #[trigger] physmem::byte_at(m, f + k) == if i * 4096 + k < len {
            physmem::byte_at(m0, src + i * 4096 + k)
        } else {
            0
        }
}

/// The stack page is mapped RW- for user mode and holds zeroes.
pub open spec fn stack_ready(m: Map<int, u64>, u: int) -> bool {
    let f = uvm::frame(m, u, STACK_VP as int);
    &&& f >= 0
    &&& sv39::leaf(m, u, STACK_VP as int) == sv39::leaf_pte(f as u64, DATA_PERM)
    &&& forall|k: int| 0 <= k < 4096 ==> #[trigger] physmem::byte_at(m, f + k) == 0
}

/// The address space `u` holds the image, a stack page, and nothing else.
pub open spec fn loaded(
    m0: Map<int, u64>,
    m: Map<int, u64>,
    u: int,
    src: int,
    len: int,
) -> bool {
    &&& forall|i: int|
        0 <= i < text_pages(len) ==> #[trigger] text_loaded(m0, m, u, src, len, i)
    &&& stack_ready(m, u)
    &&& forall|vp: int|
        uvm::user_page(vp) && vp >= 0x4_0000 + text_pages(len) && vp != STACK_VP
            ==> #[trigger] sv39::leaf(m, u, vp) == 0
}

/// A change that leaves the private pages of `u` alone leaves the image there.
pub proof fn lemma_loaded_keep(
    m0: Map<int, u64>,
    m1: Map<int, u64>,
    m2: Map<int, u64>,
    u: int,
    kroot: int,
    start: int,
    src: int,
    len: int,
)
    requires
        uvm::user_table(m1, u, kroot, start),
        loaded(m0, m1, u, src, len),
        0 < len <= TEXT_MAX,
        sv39::same_tree(m1, m2, u),
        forall|a: int| uvm::owns(m1, u, sv39::page_of(a)) ==> #[trigger] m2[a] == m1[a],
    ensures
        loaded(m0, m2, u, src, len),
{
    assert forall|i: int| 0 <= i < text_pages(len) implies #[trigger] text_loaded(
        m0,
        m2,
        u,
        src,
        len,
        i,
    ) by {
        assert(text_loaded(m0, m1, u, src, len, i));
        lemma_bytes_keep(m1, m2, u, kroot, start, 0x4_0000 + i);
    }
    lemma_bytes_keep(m1, m2, u, kroot, start, STACK_VP as int);
    assert forall|vp: int|
        uvm::user_page(vp) && vp >= 0x4_0000 + text_pages(len) && vp
            != STACK_VP implies #[trigger] sv39::leaf(m2, u, vp) == 0 by {
        assert(sv39::page_idx(vp));
        assert(sv39::leaf(m1, u, vp) == 0);
    }
}

/// Where the image was copied from may change as long as its bytes do not.
pub proof fn lemma_loaded_from(
    m0: Map<int, u64>,
    m1: Map<int, u64>,
    m: Map<int, u64>,
    u: int,
    src: int,
    len: int,
)
    requires
        loaded(m0, m, u, src, len),
        forall|a: int| src - 8 < a < src + len ==> #[trigger] m1[a] == m0[a],
    ensures
        loaded(m1, m, u, src, len),
{
    assert forall|i: int| 0 <= i < text_pages(len) implies #[trigger] text_loaded(
        m1,
        m,
        u,
        src,
        len,
        i,
    ) by {
        assert(text_loaded(m0, m, u, src, len, i));
        let f = uvm::frame(m, u, 0x4_0000 + i);
        assert forall|k: int| 0 <= k < 4096 implies #[trigger] physmem::byte_at(m, f + k) == if i
            * 4096 + k < len {
            physmem::byte_at(m1, src + i * 4096 + k)
        } else {
            0
        } by {
            let a = src + i * 4096 + k;
            if i * 4096 + k < len {
                assert(m1[a - a % 8] == m0[a - a % 8]);
            }
        }
    }
}

/// A frame keeps its place and its bytes.
pub proof fn lemma_bytes_keep(
    m1: Map<int, u64>,
    m2: Map<int, u64>,
    u: int,
    kroot: int,
    start: int,
    vp: int,
)
    requires
        uvm::user_table(m1, u, kroot, start),
        uvm::user_page(vp),
        uvm::frame(m1, u, vp) >= 0,
        sv39::same_tree(m1, m2, u),
        forall|a: int| uvm::owns(m1, u, sv39::page_of(a)) ==> #[trigger] m2[a] == m1[a],
    ensures
        sv39::leaf(m2, u, vp) == sv39::leaf(m1, u, vp),
        forall|k: int|
            0 <= k < 4096 ==> #[trigger] physmem::byte_at(m2, uvm::frame(m1, u, vp) + k)
                == physmem::byte_at(m1, uvm::frame(m1, u, vp) + k),
{
    let f = uvm::frame(m1, u, vp);
    assert(sv39::page_idx(vp));
    uvm::lemma_user_page(m1, u, kroot, start, vp);
    assert forall|k: int| 0 <= k < 4096 implies #[trigger] physmem::byte_at(m2, f + k)
        == physmem::byte_at(m1, f + k) by {
        lemma_page_word(f, k);
    }
}

/// How far loading has come: `i` pages of code are in place, the address space
/// owns exactly what has left the free list, and nothing else has changed.
#[verifier::opaque]
spec fn loading(vm0: Vm, vm: Vm, u: int, src: int, len: int, i: int) -> bool {
    let m0 = vm0.mem@;
    let m = vm.mem@;
    &&& vm.wf()
    &&& vm.image == vm0.image
    &&& vm.root == vm0.root
    &&& uvm::space(vm, u)
    &&& forall|p: int| #[trigger]
        uvm::owns(m, u, p) <==> vm0.kmem.pages().contains(p) && !vm.kmem.pages().contains(p)
    &&& forall|p: int| #[trigger] vm.kmem.pages().contains(p) ==> vm0.kmem.pages().contains(p)
    &&& forall|a: int| !vm0.kmem.pages().contains(sv39::page_of(a)) ==> #[trigger] m[a] == m0[a]
    &&& vm.kmem.pages().len() + 1 + i + text_groups(i) + (if i > 0 {
        1int
    } else {
        0
    }) == vm0.kmem.pages().len()
    &&& sv39::l1(m, u, 1) >= 0 <==> i > 0
    &&& forall|g: int|
        uvm::user_group(g) ==> (#[trigger] sv39::l0(m, u, g) >= 0 <==> g < 512 + text_groups(i))
    &&& forall|k: int| 0 <= k < i ==> #[trigger] text_loaded(m0, m, u, src, len, k)
    &&& forall|vp: int|
        uvm::user_page(vp) && vp >= 0x4_0000 + i ==> #[trigger] sv39::leaf(m, u, vp) == 0
}

/// A zero word holds zero bytes.
pub proof fn lemma_zero_byte(k: int)
    requires
        0 <= k < 8,
    ensures
        physmem::byte_of(0, k) == 0,
{
    let s = (8 * k) as u64;
    assert((0u64 >> s) & 0xff == 0) by (bit_vector);
}

/// A byte of a page lies in a word of that page.
proof fn lemma_page_word(f: int, k: int)
    requires
        memlayout::dram_page(f),
        0 <= k < 4096,
    ensures
        (f + k) - (f + k) % 8 == f + (k - k % 8),
        0 <= k - k % 8 < 4096,
        (k - k % 8) % 8 == 0,
        sv39::page_of((f + k) - (f + k) % 8) == f,
{
    assert((f + k) % 8 == k % 8);
    sv39::lemma_page_of(f, k - k % 8);
}

/// A byte below the allocator's first page is on no free page.
proof fn lemma_low_byte(vm: Vm, s: int)
    requires
        vm.wf(),
        0 <= s < vm.start(),
    ensures
        !vm.kmem.pages().contains(sv39::page_of(s - s % 8)),
{
    kalloc::lemma_pages(vm.kmem, vm.mem@);
    reveal(sv39::page_of);
}

/// Copy `n` bytes of the image at `src` to the page at `f`, which is taken and
/// zeroed.
#[verifier::rlimit(40)]
fn fill(
    vm: &mut Vm,
    f: u64,
    src: u64,
    n: u64,
    Ghost(vm0): Ghost<Vm>,
    Ghost(u): Ghost<int>,
)
    requires
        vm0.wf(),
        vm0.root != 0,
        uvm::got_page(vm0, *old(vm), u, f as int),
        old(vm).mem@ == physmem::page_filled(vm0.mem@, f as int, 0),
        n <= 4096,
        DRAM_BASE <= src,
        src + n <= vm0.start(),
    ensures
        uvm::got_page(vm0, *final(vm), u, f as int),
        forall|k: int|
            0 <= k < 4096 ==> #[trigger] physmem::byte_at(final(vm).mem@, f + k) == if k < n {
                physmem::byte_at(vm0.mem@, src + k)
            } else {
                0
            },
{
    let ghost m0 = vm0.mem@;
    let ghost vm1 = *vm;
    let ghost m1 = vm.mem@;
    proof {
        kalloc::lemma_pages(vm0.kmem, m0);
        assert(vm0.kmem.pages().contains(f as int));
        assert forall|k: int| 0 <= k < 4096 implies #[trigger] physmem::byte_at(m1, f + k) == 0 by {
            lemma_page_word(f as int, k);
            lemma_zero_byte(k % 8);
            assert((f + k) % 8 == k % 8);
        }
    }
    let mut j: u64 = 0;
    while j < n
        invariant
            j <= n,
            n <= 4096,
            vm0.wf(),
            m0 == vm0.mem@,
            m1 == vm1.mem@,
            vm.mem.wf(),
            vm.image == vm1.image,
            vm.root == vm1.root,
            vm.kmem == vm1.kmem,
            memlayout::dram_page(f as int),
            vm0.kmem.pages().contains(f as int),
            DRAM_BASE <= src,
            src + n <= vm0.start(),
            forall|a: int| sv39::page_of(a) != f ==> #[trigger] vm.mem@[a] == m1[a],
            forall|a: int| sv39::page_of(a) != f ==> #[trigger] m1[a] == m0[a],
            forall|k: int|
                0 <= k < 4096 ==> #[trigger] physmem::byte_at(vm.mem@, f + k) == if k < j {
                    physmem::byte_at(m0, src + k)
                } else {
                    0
                },
        decreases n - j,
    {
        let ghost m = vm.mem@;
        proof {
            let s = src + j;
            lemma_low_byte(vm0, s);
            assert(sv39::page_of(s - s % 8) != f);
            assert(m[s - s % 8] == m0[s - s % 8]);
            lemma_page_word(f as int, j as int);
        }
        let b: u8 = vm.mem.read_byte(src + j);
        vm.mem.write_byte(f + j, b);
        j = j + 1;
    }
    proof {
        uvm::lemma_got_write(vm0, vm1, *vm, u, f as int);
    }
}

/// Load one page: a fresh frame at `va` with `n` bytes of the image at `src`.
fn load_page(vm: &mut Vm, u: u64, va: u64, src: u64, n: u64, perm: u64) -> (f: u64)
    requires
        old(vm).wf(),
        old(vm).root != 0,
        uvm::space(*old(vm), u as int),
        va % 4096 == 0,
        uvm::user_page(va as int / 4096),
        uvm::frame(old(vm).mem@, u as int, va as int / 4096) < 0,
        perm & !PERM_MASK == 0,
        perm & PTE_U != 0,
        1 + vm::missing(old(vm).mem@, u as int, va as int / 4096) <= old(vm).kmem.pages().len(),
        n <= 4096,
        DRAM_BASE <= src,
        src + n <= old(vm).start(),
    ensures
        uvm::page_added(*old(vm), *final(vm), u as int, va as int / 4096, f, perm),
        forall|k: int|
            0 <= k < 4096 ==> #[trigger] physmem::byte_at(final(vm).mem@, f + k) == if k < n {
                physmem::byte_at(old(vm).mem@, src + k)
            } else {
                0
            },
{
    let ghost vm0 = *vm;
    let f: u64 = uvm::take_page(vm, Ghost(u as int));
    fill(vm, f, src, n, Ghost(vm0), Ghost(u as int));
    let ghost m2 = vm.mem@;
    uvm::map_taken(vm, u, va, f, perm, Ghost(vm0));
    proof {
        assert forall|k: int| 0 <= k < 4096 implies #[trigger] physmem::byte_at(vm.mem@, f + k)
            == if k < n {
            physmem::byte_at(vm0.mem@, src + k)
        } else {
            0
        } by {
            lemma_page_word(f as int, k);
            assert(vm.mem@[f + (k - k % 8)] == m2[f + (k - k % 8)]);
            assert(physmem::byte_at(m2, f + k) == physmem::byte_at(vm.mem@, f + k));
        }
    }
    f
}

/// A page of code that is in place stays so while another page is added.
proof fn lemma_text_keep(
    vm0: Vm,
    vm1: Vm,
    vm2: Vm,
    u: int,
    src: int,
    len: int,
    i: int,
    vp: int,
    f: u64,
    perm: u64,
)
    requires
        vm1.wf(),
        uvm::space(vm1, u),
        0 <= i,
        uvm::user_page(0x4_0000 + i),
        vp != 0x4_0000 + i,
        uvm::page_added(vm1, vm2, u, vp, f, perm),
        text_loaded(vm0.mem@, vm1.mem@, u, src, len, i),
    ensures
        text_loaded(vm0.mem@, vm2.mem@, u, src, len, i),
{
    let m1 = vm1.mem@;
    let m2 = vm2.mem@;
    let q = 0x4_0000 + i;
    let fq = uvm::frame(m1, u, q);
    assert(sv39::page_idx(q));
    assert(sv39::leaf(m2, u, q) == sv39::leaf(m1, u, q));
    uvm::lemma_user_page(m1, u, vm1.root as int, vm1.start(), q);
    assert forall|k: int| 0 <= k < 4096 implies #[trigger] physmem::byte_at(m2, fq + k)
        == physmem::byte_at(m1, fq + k) by {
        lemma_page_word(fq, k);
        assert(!vm1.kmem.pages().contains(fq));
    }
}

/// One more page of code in place.
#[verifier::rlimit(60)]
proof fn lemma_load_step(
    vm0: Vm,
    vm1: Vm,
    vm2: Vm,
    u: int,
    src: int,
    len: int,
    i: int,
    f: u64,
)
    requires
        loading(vm0, vm1, u, src, len, i),
        0 <= i < 4095,
        uvm::page_added(vm1, vm2, u, 0x4_0000 + i, f, TEXT_PERM),
        forall|k: int|
            0 <= k < 4096 ==> #[trigger] physmem::byte_at(vm2.mem@, f + k) == if i * 4096 + k
                < len {
                physmem::byte_at(vm0.mem@, src + i * 4096 + k)
            } else {
                0
            },
    ensures
        loading(vm0, vm2, u, src, len, i + 1),
{
    reveal(loading);
    let m0 = vm0.mem@;
    let m1 = vm1.mem@;
    let m2 = vm2.mem@;
    let vp = 0x4_0000 + i;
    let n = 1 + vm::missing(m1, u, vp);
    assert(vp / vm::ROOT_SPAN as int == 1 && vp / 512 == 512 + i / 512);
    assert(uvm::user_group(vp / 512));
    assert(sv39::l0(m1, u, vp / 512) >= 0 <==> vp / 512 < 512 + text_groups(i));
    let rest = vm2.kmem.pages();
    assert forall|p: int| #[trigger] rest.contains(p) implies vm1.kmem.pages().contains(p) by {
        let k = rest.index_of(p);
        assert(vm1.kmem.pages()[k + n] == p);
    }
    assert forall|a: int| !vm0.kmem.pages().contains(sv39::page_of(a)) implies #[trigger] m2[a]
        == m0[a] by {
        assert(!uvm::owns(m1, u, sv39::page_of(a)));
        assert(m1[a] == m0[a]);
    }
    assert forall|g: int| uvm::user_group(g) implies (#[trigger] sv39::l0(m2, u, g) >= 0 <==> g
        < 512 + text_groups(i + 1)) by {
        assert(sv39::l0(m1, u, g) >= 0 <==> g < 512 + text_groups(i));
    }
    assert forall|k: int| 0 <= k < i + 1 implies #[trigger] text_loaded(m0, m2, u, src, len, k) by {
        if k < i {
            assert(text_loaded(m0, m1, u, src, len, k));
            lemma_text_keep(vm0, vm1, vm2, u, src, len, k, vp, f, TEXT_PERM);
        } else {
            assert(sv39::page_idx(vp));
            lemma_perms();
            sv39::lemma_leaf_pte(f, TEXT_PERM);
        }
    }
    assert forall|q: int| uvm::user_page(q) && q >= 0x4_0000 + i + 1 implies #[trigger] sv39::leaf(
        m2,
        u,
        q,
    ) == 0 by {
        assert(sv39::page_idx(q));
        assert(sv39::leaf(m1, u, q) == 0);
    }
}

/// The two permission sets are inside the mask and carry the U bit.
pub proof fn lemma_perms()
    ensures
        TEXT_PERM & !PERM_MASK == 0,
        TEXT_PERM & PTE_U != 0,
        TEXT_PERM & vm::PTE_R != 0,
        TEXT_PERM & vm::PTE_W == 0,
        TEXT_PERM & vm::PTE_X != 0,
        DATA_PERM & !PERM_MASK == 0,
        DATA_PERM & PTE_U != 0,
        DATA_PERM & vm::PTE_R != 0,
        DATA_PERM & vm::PTE_W != 0,
        DATA_PERM & vm::PTE_X == 0,
{
    assert(0x1au64 & !0x1e == 0 && 0x1au64 & 0x10 != 0 && 0x1au64 & 0x04 == 0
        && 0x1au64 & 0x02 != 0 && 0x1au64 & 0x08 != 0) by (bit_vector);
    assert(0x16u64 & 0x02 != 0 && 0x16u64 & !0x1e == 0 && 0x16u64 & 0x10 != 0 && 0x16u64 & 0x04 != 0 && 0x16u64 & 0x08
        == 0) by (bit_vector);
}

/// The next page of code can be loaded.
proof fn lemma_load_ready(vm0: Vm, vm: Vm, u: int, src: int, len: int, i: int)
    requires
        loading(vm0, vm, u, src, len, i),
        0 <= i < text_pages(len),
        0 < len <= TEXT_MAX,
        image_pages(len) <= vm0.kmem.pages().len(),
    ensures
        vm.wf(),
        vm.root == vm0.root,
        vm.image == vm0.image,
        uvm::space(vm, u),
        uvm::frame(vm.mem@, u, 0x4_0000 + i) < 0,
        1 + vm::missing(vm.mem@, u, 0x4_0000 + i) <= vm.kmem.pages().len(),
        forall|a: int|
            !vm0.kmem.pages().contains(sv39::page_of(a)) ==> #[trigger] vm.mem@[a] == vm0.mem@[a],
{
    reveal(loading);
    let vp = 0x4_0000 + i;
    assert(vp / vm::ROOT_SPAN as int == 1 && vp / 512 == 512 + i / 512);
    assert(uvm::user_group(vp / 512));
    assert(sv39::l0(vm.mem@, u, vp / 512) >= 0 <==> vp / 512 < 512 + text_groups(i));
    sv39::lemma_table_pte(0);
    assert(sv39::leaf(vm.mem@, u, vp) == 0);
}

/// The stack page can be added.
proof fn lemma_stack_ready(vm0: Vm, vm: Vm, u: int, src: int, len: int)
    requires
        loading(vm0, vm, u, src, len, text_pages(len)),
        0 < len <= TEXT_MAX,
        image_pages(len) <= vm0.kmem.pages().len(),
    ensures
        vm.wf(),
        vm.root == vm0.root,
        vm.image == vm0.image,
        uvm::space(vm, u),
        uvm::frame(vm.mem@, u, STACK_VP as int) < 0,
        1 + vm::missing(vm.mem@, u, STACK_VP as int) <= vm.kmem.pages().len(),
        vm.kmem.pages().len() - 1 - vm::missing(vm.mem@, u, STACK_VP as int)
            == vm0.kmem.pages().len() - image_pages(len),
{
    reveal(loading);
    let vp = STACK_VP as int;
    assert(vp / vm::ROOT_SPAN as int == 1 && vp / 512 == 519);
    assert(uvm::user_group(519));
    assert(sv39::l0(vm.mem@, u, 519) >= 0 <==> 519 < 512 + text_groups(text_pages(len)));
    sv39::lemma_table_pte(0);
    assert(sv39::leaf(vm.mem@, u, vp) == 0);
}

/// With the stack page in place the image is loaded.
#[verifier::rlimit(60)]
proof fn lemma_load_done(vm0: Vm, vm1: Vm, vm2: Vm, u: int, src: int, len: int, f: u64)
    requires
        loading(vm0, vm1, u, src, len, text_pages(len)),
        0 < len <= TEXT_MAX,
        uvm::page_added(vm1, vm2, u, STACK_VP as int, f, DATA_PERM),
        forall|k: int| 0 <= k < 4096 ==> #[trigger] physmem::byte_at(vm2.mem@, f + k) == 0,
    ensures
        loaded(vm0.mem@, vm2.mem@, u, src, len),
        forall|p: int| #[trigger]
            uvm::owns(vm2.mem@, u, p) <==> vm0.kmem.pages().contains(p)
                && !vm2.kmem.pages().contains(p),
        forall|p: int| #[trigger] vm2.kmem.pages().contains(p) ==> vm0.kmem.pages().contains(p),
        forall|a: int|
            !vm0.kmem.pages().contains(sv39::page_of(a)) ==> #[trigger] vm2.mem@[a] == vm0.mem@[a],
{
    reveal(loading);
    let m0 = vm0.mem@;
    let m1 = vm1.mem@;
    let m2 = vm2.mem@;
    let vp = STACK_VP as int;
    let n = 1 + vm::missing(m1, u, vp);
    let rest = vm2.kmem.pages();
    assert forall|p: int| #[trigger] rest.contains(p) implies vm1.kmem.pages().contains(p) by {
        let k = rest.index_of(p);
        assert(vm1.kmem.pages()[k + n] == p);
    }
    assert forall|a: int| !vm0.kmem.pages().contains(sv39::page_of(a)) implies #[trigger] m2[a]
        == m0[a] by {
        assert(!uvm::owns(m1, u, sv39::page_of(a)));
        assert(m1[a] == m0[a]);
    }
    assert forall|k: int| 0 <= k < text_pages(len) implies #[trigger] text_loaded(
        m0,
        m2,
        u,
        src,
        len,
        k,
    ) by {
        assert(text_loaded(m0, m1, u, src, len, k));
        lemma_text_keep(vm0, vm1, vm2, u, src, len, k, vp, f, DATA_PERM);
    }
    assert(sv39::page_idx(vp));
    lemma_perms();
    sv39::lemma_leaf_pte(f, DATA_PERM);
    assert forall|q: int|
        uvm::user_page(q) && q >= 0x4_0000 + text_pages(len) && q != vp implies #[trigger] sv39::leaf(
        m2,
        u,
        q,
    ) == 0 by {
        assert(sv39::page_idx(q));
        assert(sv39::leaf(m1, u, q) == 0);
    }
}

/// Nothing is loaded yet.
proof fn lemma_load_start(vm0: Vm, vm: Vm, u: int, src: int, len: int)
    requires
        vm0.wf(),
        vm.wf(),
        vm0.kmem.pages().len() >= 1,
        vm.image == vm0.image,
        vm.root == vm0.root,
        vm0.root != 0,
        u == vm0.kmem.pages()[0],
        vm.kmem.pages() == vm0.kmem.pages().drop_first(),
        uvm::user_table(vm.mem@, u, vm0.root as int, vm0.start()),
        forall|p: int| #[trigger] uvm::owns(vm.mem@, u, p) <==> p == u,
        sv39::l1(vm.mem@, u, 1) == -1,
        forall|a: int| sv39::page_of(a) != u ==> #[trigger] vm.mem@[a] == vm0.mem@[a],
    ensures
        loading(vm0, vm, u, src, len, 0),
{
    reveal(loading);
    let pages = vm0.kmem.pages();
    kalloc::lemma_pages(vm0.kmem, vm0.mem@);
    assert(pages =~= seq![u] + vm.kmem.pages());
    uvm::lemma_pushed(vm.kmem.pages(), u, pages);
    assert(!vm.kmem.pages().contains(u)) by {
        if vm.kmem.pages().contains(u) {
            let k = vm.kmem.pages().index_of(u);
            assert(pages[k + 1] == pages[0]);
        }
    }
    uvm::lemma_empty_slot(vm.mem@, u);
}

/// Build a fresh user address space for the program image of `len` bytes at
/// `src`: copy it into private pages at `USER_TEXT` (R-X+U) and map one stack
/// page below `USER_STACK_TOP` (RW+U). Returns the new table.
#[verifier::rlimit(60)]
pub fn load_user_image(vm: &mut Vm, src: u64, len: u64) -> (table: u64)
    requires
        old(vm).wf(),
        old(vm).root != 0,
        0 < len <= TEXT_MAX,
        DRAM_BASE <= src,
        src + len <= old(vm).start(),
        image_pages(len as int) <= old(vm).kmem.pages().len(),
    ensures
        final(vm).wf(),
        final(vm).image == old(vm).image,
        final(vm).root == old(vm).root,
        table == old(vm).kmem.pages()[0],
        uvm::space(*final(vm), table as int),
        loaded(old(vm).mem@, final(vm).mem@, table as int, src as int, len as int),
        final(vm).kmem.pages().len() == old(vm).kmem.pages().len() - image_pages(len as int),
        forall|p: int| #[trigger]
            uvm::owns(final(vm).mem@, table as int, p) <==> old(vm).kmem.pages().contains(p)
                && !final(vm).kmem.pages().contains(p),
        forall|p: int| #[trigger]
            final(vm).kmem.pages().contains(p) ==> old(vm).kmem.pages().contains(p),
        forall|a: int|
            !old(vm).kmem.pages().contains(sv39::page_of(a)) ==> #[trigger] final(vm).mem@[a]
                == old(vm).mem@[a],
{
    let ghost vm0 = *vm;
    let ghost s = src as int;
    let ghost l = len as int;
    let table: u64 = uvm::make_user_table(vm);
    let ghost u = table as int;
    proof {
        lemma_load_start(vm0, *vm, u, s, l);
    }
    let npages: u64 = (len + (PAGE_SIZE - 1)) / PAGE_SIZE;
    let mut i: u64 = 0;
    while i < npages
        invariant
            i <= npages,
            npages == text_pages(l),
            l == len,
            s == src,
            u == table,
            0 < len <= TEXT_MAX,
            DRAM_BASE <= src,
            vm0.wf(),
            vm0.root != 0,
            src + len <= vm0.start(),
            image_pages(l) <= vm0.kmem.pages().len(),
            loading(vm0, *vm, u, s, l, i as int),
        decreases npages - i,
    {
        proof {
            lemma_load_ready(vm0, *vm, u, s, l, i as int);
            lemma_perms();
        }
        let ghost vm1 = *vm;
        let off: u64 = i * PAGE_SIZE;
        let n: u64 = if len - off < PAGE_SIZE {
            len - off
        } else {
            PAGE_SIZE
        };
        assert((USER_TEXT + off) as int / 4096 == 0x4_0000 + i);
        let f: u64 = load_page(vm, table, USER_TEXT + off, src + off, n, TEXT_PERM);
        proof {
            assert forall|k: int| 0 <= k < 4096 implies #[trigger] physmem::byte_at(
                vm.mem@,
                f + k,
            ) == if i * 4096 + k < l {
                physmem::byte_at(vm0.mem@, s + i * 4096 + k)
            } else {
                0
            } by {
                if k < n {
                    let b = s + i * 4096 + k;
                    lemma_low_byte(vm0, b);
                    assert(vm1.mem@[b - b % 8] == vm0.mem@[b - b % 8]);
                }
            }
            lemma_load_step(vm0, vm1, *vm, u, s, l, i as int, f);
        }
        i = i + 1;
    }
    proof {
        lemma_stack_ready(vm0, *vm, u, s, l);
        lemma_perms();
    }
    let ghost vm1 = *vm;
    let f: u64 = load_page(vm, table, USER_STACK_TOP - PAGE_SIZE, src, 0, DATA_PERM);
    proof {
        lemma_load_done(vm0, vm1, *vm, u, s, l, f);
    }
    table
}

/// Pages that loading an image of `len` bytes takes.
pub fn image_cost(len: u64) -> (n: u64)
    requires
        len <= TEXT_MAX,
    ensures
        n == image_pages(len as int),
{
    let pages: u64 = (len + 4095) / 4096;
    if pages > 3584 {
        11 + pages
    } else {
        4 + pages + (pages + 511) / 512
    }
}

} // verus!
