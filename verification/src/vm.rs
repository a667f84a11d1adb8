//! Sv39 virtual memory: walking and editing page tables, and the kernel's own
//! map.
//!
//! Sv39 translates 39-bit virtual addresses through three levels of 512-entry
//! tables. The kernel is identity-mapped with least privilege per section, at
//! 4 KiB granularity.
use vstd::prelude::*;

use crate::kalloc;
use crate::kalloc::FreeList;
use crate::memlayout;
use crate::memlayout::{
    KernelImage, HEAP_SIZE, PAGE_SIZE, PHYS_TOP, PLIC, PLIC_SIZE, UART0, VIRT_TEST,
};
use crate::physmem;
use crate::physmem::Memory;
use crate::sv39;
pub use crate::sv39::{
    PERM_MASK, PTE_A, PTE_D, PTE_R, PTE_U, PTE_V, PTE_W, PTE_X, ROOT_SPAN, VA_MAX,
};
pub use crate::uvm::{clone_user_table, free_user_table, make_user_table};

verus! {

fn pa_to_pte(pa: u64) -> (e: u64)
    ensures
        e == sv39::pa_pte(pa),
{
    (pa >> 12u64) << 10u64
}

pub(crate) fn pte_to_pa(e: u64) -> (pa: u64)
    ensures
        pa == sv39::pte_pa(e),
{
    (e >> 10u64) << 12u64
}

/// Is the entry `e` in use?
pub(crate) fn entry_valid(e: u64) -> (valid: bool)
    ensures
        valid == sv39::pte_valid(e),
{
    e & PTE_V != 0
}

/// The index of `va` into the table at `level`.
fn vpn(va: u64, level: u64) -> (i: u64)
    requires
        va < VA_MAX,
        level < 3,
    ensures
        level == 0 ==> i == va / PAGE_SIZE % 512,
        level == 1 ==> i == va / PAGE_SIZE / 512 % 512,
        level == 2 ==> i == va / PAGE_SIZE / ROOT_SPAN,
        i < 512,
{
    let s: u64 = 12 + 9 * level;
    assert((va >> 12u64) & 0x1ff == va / 4096 % 512) by (bit_vector);
    assert((va >> 21u64) & 0x1ff == va / 4096 / 512 % 512) by (bit_vector);
    assert((va >> 30u64) & 0x1ff == va / 4096 / 0x4_0000) by (bit_vector)
        requires
            va < 0x40_0000_0000,
    ;
    (va >> s) & 0x1ff
}

/// No free page is a table of `root`.
pub open spec fn unlinked(pages: Seq<int>, m: Map<int, u64>, root: int) -> bool {
    forall|p: int| #[trigger] pages.contains(p) ==> sv39::off_tables(m, root, p)
}

/// Walk the table rooted at `root` to the level-0 entry for `va` and return
/// that entry's address; `None` when a table on the way is missing.
#[verifier::spinoff_prover]
#[verifier::rlimit(40)]
fn walk(mem: &Memory, root: u64, va: u64) -> (slot: Option<u64>)
    requires
        mem.wf(),
        sv39::tree(mem@, root as int),
        va < VA_MAX,
    ensures
        ({
            let vp = va as int / 4096;
            let t = sv39::l0(mem@, root as int, vp / 512);
            match slot {
                Some(a) => t >= 0 && a == t + 8 * (vp % 512),
                None => t < 0,
            }
        }),
{
    let ghost vp = va as int / 4096;
    let ghost m = mem@;
    assert(vp / 512 / 512 == vp / 0x4_0000);
    assert(sv39::root_idx(vp / 512 / 512) && sv39::group_idx(vp / 512));
    proof {
        sv39::lemma_tree(m, root as int, vp / 512 / 512, vp / 512);
        sv39::lemma_l1(m, root as int, vp / 512 / 512);
        sv39::lemma_l0(m, root as int, vp / 512);
    }
    let i: u64 = vpn(va, 2);
    let e2: u64 = mem.read(root + 8 * i);
    assert(e2 == sv39::ent(m, root as int, vp / 512 / 512));
    if e2 & PTE_V == 0 {
        return None;
    }
    let t1: u64 = pte_to_pa(e2);
    assert(t1 == sv39::l1(m, root as int, vp / 512 / 512));
    let j: u64 = vpn(va, 1);
    let e1: u64 = mem.read(t1 + 8 * j);
    assert(e1 == sv39::ent(m, t1 as int, vp / 512 % 512));
    if e1 & PTE_V == 0 {
        return None;
    }
    let t0: u64 = pte_to_pa(e1);
    assert(t0 == sv39::l0(m, root as int, vp / 512));
    Some(t0 + 8 * vpn(va, 0))
}

/// Tables that walking to `vp` under `root` would have to add.
pub open spec fn missing(m: Map<int, u64>, root: int, vp: int) -> nat {
    (if sv39::l1(m, root, vp / ROOT_SPAN as int) < 0 {
        1nat
    } else {
        0
    }) + (if sv39::l0(m, root, vp / 512) < 0 {
        1nat
    } else {
        0
    })
}

/// How many tables have to be added before the page of `va` can be mapped.
#[verifier::spinoff_prover]
#[verifier::rlimit(30)]
pub fn missing_tables(mem: &Memory, root: u64, va: u64) -> (n: u64)
    requires
        mem.wf(),
        sv39::tree(mem@, root as int),
        va < VA_MAX,
    ensures
        n == missing(mem@, root as int, va as int / 4096),
{
    let ghost r = root as int;
    let ghost vp = va as int / 4096;
    proof {
        assert(sv39::root_idx(vp / ROOT_SPAN as int) && sv39::group_idx(vp / 512));
        sv39::lemma_tree(mem@, r, vp / ROOT_SPAN as int, vp / 512);
        sv39::lemma_l1(mem@, r, vp / ROOT_SPAN as int);
        sv39::lemma_l0(mem@, r, vp / 512);
        assert(vp / 512 / 512 == vp / ROOT_SPAN as int);
    }
    let e2: u64 = mem.read(root + 8 * vpn(va, 2));
    assert(e2 == sv39::ent(mem@, r, vp / ROOT_SPAN as int));
    if !entry_valid(e2) {
        return 2;
    }
    let t1: u64 = pte_to_pa(e2);
    assert(t1 == sv39::l1(mem@, r, vp / ROOT_SPAN as int));
    let e1: u64 = mem.read(t1 + 8 * vpn(va, 1));
    assert(e1 == sv39::ent(mem@, t1 as int, vp / 512 % 512));
    if entry_valid(e1) {
        0
    } else {
        1
    }
}

/// The level-1 table that `va` goes through, added if it is missing.
#[verifier::spinoff_prover]
fn root_table(fl: &mut FreeList, mem: &mut Memory, root: u64, va: u64) -> (t1: u64)
    requires
        old(mem).wf(),
        old(fl).wf(old(mem)@),
        sv39::tree(old(mem)@, root as int),
        unlinked(old(fl).pages(), old(mem)@, root as int),
        va < VA_MAX,
        sv39::l1(old(mem)@, root as int, va as int / 4096 / ROOT_SPAN as int) < 0 ==> old(
            fl,
        ).pages().len() > 0,
    ensures
        final(mem).wf(),
        final(fl).wf(final(mem)@),
        final(fl).start() == old(fl).start(),
        sv39::tree(final(mem)@, root as int),
        unlinked(final(fl).pages(), final(mem)@, root as int),
        ({
            let m = old(mem)@;
            let m2 = final(mem)@;
            let r = root as int;
            let i = va as int / 4096 / ROOT_SPAN as int;
            &&& t1 == sv39::l1(m2, r, i)
            &&& forall|k: int| sv39::root_idx(k) && k != i ==> #[trigger] sv39::l1(m2, r, k) == sv39::l1(m, r, k)
            &&& forall|g: int| sv39::group_idx(g) ==> #[trigger] sv39::l0(m2, r, g) == sv39::l0(m, r, g)
            &&& forall|vp: int| sv39::page_idx(vp) ==> #[trigger] sv39::leaf(m2, r, vp) == sv39::leaf(m, r, vp)
            &&& if sv39::l1(m, r, i) >= 0 {
                &&& m2 == m
                &&& final(fl).pages() == old(fl).pages()
            } else {
                &&& t1 == old(fl).pages()[0]
                &&& old(fl).pages().contains(t1 as int)
                &&& final(fl).pages() == old(fl).pages().skip(1)
                &&& m2 == physmem::page_filled(m, t1 as int, 0).insert(r + 8 * i, sv39::table_pte(t1))
            }
        }),
{
    let ghost i = va as int / 4096 / ROOT_SPAN as int;
    let ghost m = mem@;
    let ghost pages = fl.pages();
    proof {
        assert(sv39::root_idx(i));
        sv39::lemma_tree(m, root as int, i, 0);
        kalloc::lemma_pages(*fl, m);
        sv39::lemma_l1(m, root as int, i);
        sv39::lemma_page_of(root as int, 8 * i);
    }
    let a: u64 = root + 8 * vpn(va, 2);
    let e: u64 = mem.read(a);
    assert(e == sv39::ent(m, root as int, i));
    if e & PTE_V != 0 {
        return pte_to_pa(e);
    }
    let page: u64 = kalloc::alloc_page(fl, mem).unwrap();
    let ghost m1 = mem@;
    mem.write(a, pa_to_pte(page) | PTE_V);
    proof {
        sv39::lemma_add_l1(m, root as int, i, page, mem@);
        lemma_still_unlinked(*fl, m, m1, mem@, root as int, pages, a as int, page as int);
        assert(pages.drop_first() =~= pages.skip(1));
    }
    page
}

/// After the head of the free list became a table, the rest of the list is
/// still free and still off the tables.
proof fn lemma_still_unlinked(
    fl: FreeList,
    m: Map<int, u64>,
    m1: Map<int, u64>,
    m2: Map<int, u64>,
    root: int,
    pages: Seq<int>,
    a: int,
    page: int,
)
    requires
        unlinked(pages, m, root),
        fl.wf(m1),
        pages.len() > 0,
        pages.no_duplicates(),
        page == pages[0],
        fl.pages() == pages.drop_first(),
        sv39::only_word(m1, m2, a),
        !sv39::off_tables(m, root, sv39::page_of(a)),
        forall|k: int| sv39::root_idx(k) ==> #[trigger] sv39::l1(m2, root, k) == sv39::l1(m, root, k) || sv39::l1(m2, root, k) == page,
        forall|g: int| sv39::group_idx(g) ==> #[trigger] sv39::l0(m2, root, g) == sv39::l0(m, root, g) || sv39::l0(m2, root, g) == page,
    ensures
        fl.wf(m2),
        unlinked(fl.pages(), m2, root),
{
    kalloc::lemma_pages(fl, m1);
    assert forall|p: int| #[trigger] fl.pages().contains(p) implies sv39::off_tables(m2, root, p) && m2[p]
        == m1[p] by {
        let k = fl.pages().index_of(p);
        assert(pages[k + 1] == p);
        assert(pages.contains(p));
        assert(sv39::off_tables(m, root, p));
        assert(p != page);
        sv39::lemma_page_of(p, 0);
    }
    kalloc::lemma_frame(fl, m1, m2);
}

/// The level-0 table that `va` goes through, added under the level-1 table
/// `t1` if it is missing.
#[verifier::spinoff_prover]
#[verifier::rlimit(30)]
fn group_table(fl: &mut FreeList, mem: &mut Memory, root: u64, t1: u64, va: u64) -> (t0: u64)
    requires
        old(mem).wf(),
        old(fl).wf(old(mem)@),
        sv39::tree(old(mem)@, root as int),
        unlinked(old(fl).pages(), old(mem)@, root as int),
        va < VA_MAX,
        t1 == sv39::l1(old(mem)@, root as int, va as int / 4096 / ROOT_SPAN as int),
        sv39::l0(old(mem)@, root as int, va as int / 4096 / 512) < 0 ==> old(fl).pages().len() > 0,
    ensures
        final(mem).wf(),
        final(fl).wf(final(mem)@),
        final(fl).start() == old(fl).start(),
        sv39::tree(final(mem)@, root as int),
        unlinked(final(fl).pages(), final(mem)@, root as int),
        ({
            let m = old(mem)@;
            let m2 = final(mem)@;
            let r = root as int;
            let g = va as int / 4096 / 512;
            &&& t0 == sv39::l0(m2, r, g)
            &&& forall|k: int| sv39::root_idx(k) ==> #[trigger] sv39::l1(m2, r, k) == sv39::l1(m, r, k)
            &&& forall|k: int| sv39::group_idx(k) && k != g ==> #[trigger] sv39::l0(m2, r, k) == sv39::l0(m, r, k)
            &&& forall|vp: int| sv39::page_idx(vp) ==> #[trigger] sv39::leaf(m2, r, vp) == sv39::leaf(m, r, vp)
            &&& if sv39::l0(m, r, g) >= 0 {
                &&& m2 == m
                &&& final(fl).pages() == old(fl).pages()
            } else {
                &&& t0 == old(fl).pages()[0]
                &&& old(fl).pages().contains(t0 as int)
                &&& final(fl).pages() == old(fl).pages().skip(1)
                &&& m2 == physmem::page_filled(m, t0 as int, 0).insert(
                    t1 + 8 * (g % 512),
                    sv39::table_pte(t0),
                )
            }
        }),
{
    let ghost g = va as int / 4096 / 512;
    let ghost m = mem@;
    let ghost pages = fl.pages();
    proof {
        assert(g / 512 == va as int / 4096 / ROOT_SPAN as int);
        assert(sv39::root_idx(g / 512) && sv39::group_idx(g));
        sv39::lemma_tree(m, root as int, g / 512, g);
        kalloc::lemma_pages(*fl, m);
        sv39::lemma_l0(m, root as int, g);
        sv39::lemma_page_of(t1 as int, 8 * (g % 512));
    }
    let j: u64 = vpn(va, 1);
    assert(j == g % 512);
    let a: u64 = t1 + 8 * j;
    let e: u64 = mem.read(a);
    assert(e == sv39::ent(m, t1 as int, g % 512));
    if e & PTE_V != 0 {
        return pte_to_pa(e);
    }
    let page: u64 = kalloc::alloc_page(fl, mem).unwrap();
    let ghost m1 = mem@;
    mem.write(a, pa_to_pte(page) | PTE_V);
    proof {
        sv39::lemma_add_l0(m, root as int, g, page, mem@);
        assert(!sv39::off_tables(m, root as int, t1 as int));
        assert(sv39::only_word(m1, mem@, a as int));
        lemma_still_unlinked(*fl, m, m1, mem@, root as int, pages, a as int, page as int);
        assert(pages.drop_first() =~= pages.skip(1));
    }
    page
}

/// The memory `m2` is `m1` with the tables that virtual page `vp` goes through
/// in place, those that were missing taken from `pages`.
pub open spec fn tabled(
    m1: Map<int, u64>,
    m2: Map<int, u64>,
    root: int,
    vp: int,
    pages: Seq<int>,
) -> bool {
    let i = vp / ROOT_SPAN as int;
    let g = vp / 512;
    &&& sv39::l1(m2, root, i) >= 0
    &&& sv39::l0(m2, root, g) >= 0
    &&& forall|k: int|
        sv39::root_idx(k) && (k != i || sv39::l1(m1, root, k) >= 0) ==> #[trigger] sv39::l1(
            m2,
            root,
            k,
        ) == sv39::l1(m1, root, k)
    &&& sv39::l1(m1, root, i) < 0 ==> pages.contains(sv39::l1(m2, root, i))
    &&& forall|k: int|
        sv39::group_idx(k) && (k != g || sv39::l0(m1, root, k) >= 0) ==> #[trigger] sv39::l0(
            m2,
            root,
            k,
        ) == sv39::l0(m1, root, k)
    &&& sv39::l0(m1, root, g) < 0 ==> pages.contains(sv39::l0(m2, root, g))
    &&& forall|q: int|
        sv39::page_idx(q) ==> #[trigger] sv39::leaf(m2, root, q) == sv39::leaf(m1, root, q)
    &&& forall|a: int|
        sv39::page_of(a) != root && sv39::page_of(a) != sv39::l1(m1, root, i) && !pages.contains(
            sv39::page_of(a),
        ) ==> #[trigger] m2[a] == m1[a]
}

/// Like [`walk`], adding the tables that are missing on the way.
#[verifier::rlimit(60)]
fn walk_alloc(fl: &mut FreeList, mem: &mut Memory, root: u64, va: u64) -> (slot: u64)
    requires
        old(mem).wf(),
        old(fl).wf(old(mem)@),
        sv39::tree(old(mem)@, root as int),
        unlinked(old(fl).pages(), old(mem)@, root as int),
        va < VA_MAX,
        missing(old(mem)@, root as int, va as int / 4096) <= old(fl).pages().len(),
    ensures
        final(mem).wf(),
        final(fl).wf(final(mem)@),
        final(fl).start() == old(fl).start(),
        final(fl).pages() == old(fl).pages().skip(
            missing(old(mem)@, root as int, va as int / 4096) as int,
        ),
        sv39::tree(final(mem)@, root as int),
        unlinked(final(fl).pages(), final(mem)@, root as int),
        slot == sv39::l0(final(mem)@, root as int, va as int / 4096 / 512) + 8 * (va as int / 4096
            % 512),
        tabled(old(mem)@, final(mem)@, root as int, va as int / 4096, old(fl).pages()),
{
    let ghost vp = va as int / 4096;
    let ghost m = mem@;
    let ghost pages = fl.pages();
    let ghost r = root as int;
    let ghost i = vp / ROOT_SPAN as int;
    let ghost g = vp / 512;
    proof {
        assert(sv39::root_idx(i) && sv39::group_idx(g));
        sv39::lemma_tree(m, r, i, g);
        kalloc::lemma_pages(*fl, m);
    }
    let t1: u64 = root_table(fl, mem, root, va);
    let ghost m1 = mem@;
    let ghost pages1 = fl.pages();
    proof {
        sv39::lemma_tree(m1, r, i, g);
    }
    let t0: u64 = group_table(fl, mem, root, t1, va);
    proof {
        sv39::lemma_tree(mem@, r, i, g);
        assert(pages.skip(0) =~= pages);
        if pages.len() >= 2 {
            assert(pages.skip(1).skip(1) =~= pages.skip(2));
        }
        assert forall|p: int| pages1.contains(p) implies pages.contains(p) by {
            let k = pages1.index_of(p);
            if sv39::l1(m, r, i) < 0 {
                assert(pages[k + 1] == p);
            }
        }
        assert forall|a: int|
            sv39::page_of(a) != r && sv39::page_of(a) != sv39::l1(m, r, i) && !pages.contains(
                sv39::page_of(a),
            ) implies #[trigger] mem@[a] == m[a] by {
            sv39::lemma_page_of(r, 8 * i);
            sv39::lemma_page_of(t1 as int, 8 * (g % 512));
            assert(sv39::page_of(a) != t1);
            assert(sv39::l0(m, r, g) < 0 ==> sv39::page_of(a) != t0);
            if sv39::l1(m, r, i) < 0 {
                sv39::lemma_off_page(t1 as int, a);
            }
            assert(m1[a] == m[a]);
            if sv39::l0(m, r, g) < 0 {
                sv39::lemma_off_page(t0 as int, a);
            }
        }
    }
    t0 + 8 * vpn(va, 0)
}

/// Software page-table walk: the physical address that `va` stands for and
/// the leaf entry that says so, or `None` where nothing is mapped.
pub fn translate(mem: &Memory, root: u64, va: u64) -> (res: Option<(u64, u64)>)
    requires
        mem.wf(),
        sv39::tree(mem@, root as int),
        va < VA_MAX,
    ensures
        res == translation(mem@, root as int, va),
{
    match walk(mem, root, va) {
        None => {
            proof {
                sv39::lemma_table_pte(0);
                sv39::lemma_leaf(mem@, root as int, va as int / 4096);
            }
            None
        },
        Some(slot) => {
            proof {
                assert(sv39::group_idx(va as int / 4096 / 512));
                sv39::lemma_leaf(mem@, root as int, va as int / 4096);
                sv39::lemma_tree(mem@, root as int, 0, va as int / 4096 / 512);
            }
            let e: u64 = mem.read(slot);
            if e & PTE_V == 0 {
                None
            } else {
                Some((pte_to_pa(e) | (va % PAGE_SIZE), e))
            }
        },
    }
}

/// The translation of `va` under `root`.
pub open spec fn translation(m: Map<int, u64>, root: int, va: u64) -> Option<(u64, u64)> {
    let e = sv39::leaf(m, root, va as int / 4096);
    if sv39::pte_valid(e) {
        Some((((e >> 10u64) << 12u64) | (va % PAGE_SIZE), e))
    } else {
        None
    }
}

// --- Mapping ranges ----------------------------------------------------------

/// The root entries that the virtual pages `[lo, lo + n)` go through.
pub open spec fn roots_of(lo: int, n: int) -> Set<int> {
    if n <= 0 {
        Set::empty()
    } else {
        vstd::set_lib::set_int_range(lo / ROOT_SPAN as int, (lo + n - 1) / ROOT_SPAN as int + 1)
    }
}

/// The level-0 tables that the virtual pages `[lo, lo + n)` go through.
pub open spec fn groups_of(lo: int, n: int) -> Set<int> {
    if n <= 0 {
        Set::empty()
    } else {
        vstd::set_lib::set_int_range(lo / 512, (lo + n - 1) / 512 + 1)
    }
}

/// The root entries in use.
pub open spec fn roots_in(m: Map<int, u64>, root: int) -> Set<int> {
    Set::new(|i: int| sv39::root_idx(i) && sv39::l1(m, root, i) >= 0)
}

/// The level-0 tables in place.
pub open spec fn groups_in(m: Map<int, u64>, root: int) -> Set<int> {
    Set::new(|g: int| sv39::group_idx(g) && sv39::l0(m, root, g) >= 0)
}

/// How many tables have to be added before the virtual pages `[lo, lo + n)`
/// can be mapped.
pub open spec fn tables_needed(m: Map<int, u64>, root: int, lo: int, n: int) -> nat {
    roots_of(lo, n).difference(roots_in(m, root)).len() + groups_of(lo, n).difference(
        groups_in(m, root),
    ).len()
}

/// Is the page at `p` one of the tables that mapping `[lo, lo + n)` writes?
pub open spec fn touched(m: Map<int, u64>, root: int, lo: int, n: int, p: int) -> bool {
    ||| p == root
    ||| exists|i: int| #[trigger] roots_of(lo, n).contains(i) && p == sv39::l1(m, root, i)
    ||| exists|g: int| #[trigger] groups_of(lo, n).contains(g) && p == sv39::l0(m, root, g)
}

/// One more page in the range adds its own root entry and group.
proof fn lemma_range_step(lo: int, n: int)
    requires
        0 <= lo,
        0 <= n,
    ensures
        roots_of(lo, n + 1) == roots_of(lo, n).insert((lo + n) / ROOT_SPAN as int),
        groups_of(lo, n + 1) == groups_of(lo, n).insert((lo + n) / 512),
        roots_of(lo, n).finite(),
        groups_of(lo, n).finite(),
{
    vstd::set_lib::lemma_int_range(lo / ROOT_SPAN as int, (lo + n - 1) / ROOT_SPAN as int + 1);
    vstd::set_lib::lemma_int_range(lo / 512, (lo + n - 1) / 512 + 1);
    assert(roots_of(lo, n + 1) =~= roots_of(lo, n).insert((lo + n) / ROOT_SPAN as int));
    assert(groups_of(lo, n + 1) =~= groups_of(lo, n).insert((lo + n) / 512));
}

/// Growing `s` by `x` grows what `t` lacks of it by `x`, if by anything.
proof fn lemma_lack_step(s: Set<int>, t: Set<int>, x: int)
    requires
        s.finite(),
    ensures
        s.insert(x).difference(t).finite(),
        s.insert(x).difference(t).len() == s.difference(t).len() + if s.contains(x) || t.contains(
            x,
        ) {
            0nat
        } else {
            1
        },
{
    assert(s.difference(t).subset_of(s));
    vstd::set_lib::lemma_set_subset_finite(s, s.difference(t));
    if s.contains(x) || t.contains(x) {
        assert(s.insert(x).difference(t) =~= s.difference(t));
    } else {
        assert(s.insert(x).difference(t) =~= s.difference(t).insert(x));
    }
}

/// A longer range needs at least as many tables.
proof fn lemma_needed_mono(m: Map<int, u64>, root: int, lo: int, n: int, k: int)
    requires
        0 <= lo,
        0 <= n <= k,
    ensures
        tables_needed(m, root, lo, n) <= tables_needed(m, root, lo, k),
    decreases k - n,
{
    if n < k {
        lemma_range_step(lo, n);
        lemma_lack_step(roots_of(lo, n), roots_in(m, root), (lo + n) / ROOT_SPAN as int);
        lemma_lack_step(groups_of(lo, n), groups_in(m, root), (lo + n) / 512);
        lemma_needed_mono(m, root, lo, n + 1, k);
    }
}

/// The tables of `m1` are where they were; those that `m2` has beyond them
/// are former free pages and stand exactly where the range `[lo, lo + n)`
/// needs them.
pub open spec fn grown(
    m1: Map<int, u64>,
    m2: Map<int, u64>,
    root: int,
    lo: int,
    n: int,
    pages: Seq<int>,
) -> bool {
    &&& forall|i: int|
        sv39::root_idx(i) && sv39::l1(m1, root, i) >= 0 ==> #[trigger] sv39::l1(m2, root, i) == sv39::l1(m1, root, i)
    &&& forall|i: int|
        sv39::root_idx(i) && sv39::l1(m1, root, i) < 0 ==> if roots_of(lo, n).contains(i) {
            #[trigger] sv39::l1(m2, root, i) >= 0 && pages.contains(sv39::l1(m2, root, i))
        } else {
            sv39::l1(m2, root, i) < 0
        }
    &&& forall|g: int|
        sv39::group_idx(g) && sv39::l0(m1, root, g) >= 0 ==> #[trigger] sv39::l0(m2, root, g) == sv39::l0(m1, root, g)
    &&& forall|g: int|
        sv39::group_idx(g) && sv39::l0(m1, root, g) < 0 ==> if groups_of(lo, n).contains(g) {
            #[trigger] sv39::l0(m2, root, g) >= 0 && pages.contains(sv39::l0(m2, root, g))
        } else {
            sv39::l0(m2, root, g) < 0
        }
}

/// The memory `m2` is `m1` with virtual page `vp` mapped by the entry `e` and
/// the missing tables taken from `pages`.
pub open spec fn mapped_one(
    m1: Map<int, u64>,
    m2: Map<int, u64>,
    root: int,
    vp: int,
    e: u64,
    pages: Seq<int>,
) -> bool {
    let i = vp / ROOT_SPAN as int;
    let g = vp / 512;
    &&& sv39::l1(m2, root, i) >= 0
    &&& sv39::l0(m2, root, g) >= 0
    &&& forall|k: int|
        sv39::root_idx(k) && (k != i || sv39::l1(m1, root, k) >= 0) ==> #[trigger] sv39::l1(m2, root, k) == sv39::l1(
            m1,
            root,
            k,
        )
    &&& sv39::l1(m1, root, i) < 0 ==> pages.contains(sv39::l1(m2, root, i))
    &&& forall|k: int|
        sv39::group_idx(k) && (k != g || sv39::l0(m1, root, k) >= 0) ==> #[trigger] sv39::l0(m2, root, k) == sv39::l0(
            m1,
            root,
            k,
        )
    &&& sv39::l0(m1, root, g) < 0 ==> pages.contains(sv39::l0(m2, root, g))
    &&& forall|q: int|
        sv39::page_idx(q) ==> #[trigger] sv39::leaf(m2, root, q) == if q == vp {
            e
        } else {
            sv39::leaf(m1, root, q)
        }
    &&& forall|a: int|
        sv39::page_of(a) != root && sv39::page_of(a) != sv39::l1(m1, root, i) && sv39::page_of(a) != sv39::l0(m1, root, g)
            && !pages.contains(sv39::page_of(a)) ==> #[trigger] m2[a] == m1[a]
}

/// Writing the entry completes the mapping.
#[verifier::spinoff_prover]
proof fn lemma_entered(
    fl: FreeList,
    m1: Map<int, u64>,
    m2: Map<int, u64>,
    m3: Map<int, u64>,
    root: int,
    vp: int,
    e: u64,
    pages: Seq<int>,
)
    requires
        sv39::page_idx(vp),
        sv39::tree(m2, root),
        fl.wf(m2),
        unlinked(fl.pages(), m2, root),
        tabled(m1, m2, root, vp, pages),
        m3 == m2.insert(sv39::l0(m2, root, vp / 512) + 8 * (vp % 512), e),
    ensures
        sv39::tree(m3, root),
        fl.wf(m3),
        unlinked(fl.pages(), m3, root),
        mapped_one(m1, m3, root, vp, e, pages),
{
    let t = sv39::l0(m2, root, vp / 512);
    assert(sv39::root_idx(vp / ROOT_SPAN as int) && sv39::group_idx(vp / 512));
    sv39::lemma_tree(m2, root, vp / ROOT_SPAN as int, vp / 512);
    sv39::lemma_set_leaf(m2, root, vp, e, m3);
    kalloc::lemma_pages(fl, m2);
    assert forall|p: int| #[trigger] fl.pages().contains(p) implies sv39::off_tables(m3, root, p)
        && m3[p] == m2[p] by {
        assert(sv39::off_tables(m2, root, p));
        sv39::lemma_off_tables(m2, m3, root, p);
        assert(t != p);
    }
    kalloc::lemma_frame(fl, m2, m3);
    sv39::lemma_page_of(t, 8 * (vp % 512));
    assert forall|a: int|
        sv39::page_of(a) != root && sv39::page_of(a) != sv39::l1(m1, root, vp / ROOT_SPAN as int)
            && sv39::page_of(a) != sv39::l0(m1, root, vp / 512) && !pages.contains(
            sv39::page_of(a),
        ) implies #[trigger] m3[a] == m1[a] by {
        assert(m2[a] == m1[a]);
    }
}

/// Map one page.
pub(crate) fn map_page(fl: &mut FreeList, mem: &mut Memory, root: u64, va: u64, pa: u64, perm: u64)
    requires
        old(mem).wf(),
        old(fl).wf(old(mem)@),
        sv39::tree(old(mem)@, root as int),
        unlinked(old(fl).pages(), old(mem)@, root as int),
        va < VA_MAX,
        missing(old(mem)@, root as int, va as int / 4096) <= old(fl).pages().len(),
    ensures
        final(mem).wf(),
        final(fl).wf(final(mem)@),
        final(fl).start() == old(fl).start(),
        final(fl).pages() == old(fl).pages().skip(
            missing(old(mem)@, root as int, va as int / 4096) as int,
        ),
        sv39::tree(final(mem)@, root as int),
        unlinked(final(fl).pages(), final(mem)@, root as int),
        mapped_one(
            old(mem)@,
            final(mem)@,
            root as int,
            va as int / 4096,
            sv39::leaf_pte(pa, perm),
            old(fl).pages(),
        ),
{
    let ghost r = root as int;
    let ghost vp = va as int / 4096;
    let ghost m1 = mem@;
    let ghost pages = fl.pages();
    let slot: u64 = walk_alloc(fl, mem, root, va);
    let ghost m2 = mem@;
    proof {
        assert(sv39::root_idx(vp / ROOT_SPAN as int) && sv39::group_idx(vp / 512) && sv39::page_idx(vp));
        sv39::lemma_tree(m2, r, vp / ROOT_SPAN as int, vp / 512);
    }
    mem.write(slot, pa_to_pte(pa) | perm | PTE_A | PTE_D | PTE_V);
    proof {
        lemma_entered(*fl, m1, m2, mem@, r, vp, sv39::leaf_pte(pa, perm), pages);
    }
}

/// The range `[lo, lo + k)` is mapped; mapping one page more makes it
/// `[lo, lo + k + 1)`.
#[verifier::rlimit(60)]
proof fn lemma_map_step(
    m0: Map<int, u64>,
    m1: Map<int, u64>,
    m2: Map<int, u64>,
    root: int,
    lo: int,
    k: int,
    e: u64,
    pages0: Seq<int>,
    pages1: Seq<int>,
)
    requires
        0 <= lo,
        0 <= k,
        sv39::page_idx(lo + k),
        grown(m0, m1, root, lo, k, pages0),
        forall|p: int| #[trigger] pages1.contains(p) ==> pages0.contains(p),
        mapped_one(m1, m2, root, lo + k, e, pages1),
        forall|a: int|
            !touched(m0, root, lo, k, sv39::page_of(a)) && !pages0.contains(sv39::page_of(a))
                ==> #[trigger] m1[a] == m0[a],
    ensures
        grown(m0, m2, root, lo, k + 1, pages0),
        forall|a: int|
            !touched(m0, root, lo, k + 1, sv39::page_of(a)) && !pages0.contains(sv39::page_of(a))
                ==> #[trigger] m2[a] == m0[a],
{
    let vp = lo + k;
    let r = root;
    lemma_range_step(lo, k);
    assert(sv39::root_idx(vp / ROOT_SPAN as int) && sv39::group_idx(vp / 512));
    assert(roots_of(lo, k + 1).contains(vp / ROOT_SPAN as int));
    assert(groups_of(lo, k + 1).contains(vp / 512));
    sv39::lemma_l1(m0, r, vp / ROOT_SPAN as int);
    sv39::lemma_l1(m1, r, vp / ROOT_SPAN as int);
    sv39::lemma_l0(m0, r, vp / 512);
    sv39::lemma_l0(m1, r, vp / 512);
    assert forall|a: int|
        !touched(m0, r, lo, k + 1, sv39::page_of(a)) && !pages0.contains(
            sv39::page_of(a),
        ) implies #[trigger] m2[a] == m0[a] by {
        let p = sv39::page_of(a);
        assert(!touched(m0, r, lo, k, p)) by {
            if exists|i: int| #[trigger] roots_of(lo, k).contains(i) && p == sv39::l1(m0, r, i) {
                let i = choose|i: int| #[trigger] roots_of(lo, k).contains(i) && p == sv39::l1(m0, r, i);
                assert(roots_of(lo, k + 1).contains(i));
            }
            if exists|g: int| #[trigger] groups_of(lo, k).contains(g) && p == sv39::l0(m0, r, g) {
                let g = choose|g: int| #[trigger] groups_of(lo, k).contains(g) && p == sv39::l0(m0, r, g);
                assert(groups_of(lo, k + 1).contains(g));
            }
        }
        assert(p != sv39::l1(m0, r, vp / ROOT_SPAN as int));
        assert(p != sv39::l0(m0, r, vp / 512));
        assert(m1[a] == m0[a]);
        if sv39::l1(m0, r, vp / ROOT_SPAN as int) < 0 {
            if roots_of(lo, k).contains(vp / ROOT_SPAN as int) {
                assert(pages0.contains(sv39::l1(m1, r, vp / ROOT_SPAN as int)));
            }
        }
        if sv39::l0(m0, r, vp / 512) < 0 {
            if groups_of(lo, k).contains(vp / 512) {
                assert(pages0.contains(sv39::l0(m1, r, vp / 512)));
            }
        }
    }
}

/// How many tables the next page of a range adds.
proof fn lemma_needed_step(
    m0: Map<int, u64>,
    m1: Map<int, u64>,
    root: int,
    lo: int,
    k: int,
    pages0: Seq<int>,
)
    requires
        0 <= lo,
        0 <= k,
        sv39::page_idx(lo + k),
        grown(m0, m1, root, lo, k, pages0),
    ensures
        missing(m1, root, lo + k) + tables_needed(m0, root, lo, k) == tables_needed(
            m0,
            root,
            lo,
            k + 1,
        ),
{
    let vp = lo + k;
    lemma_range_step(lo, k);
    assert(sv39::root_idx(vp / ROOT_SPAN as int) && sv39::group_idx(vp / 512));
    lemma_lack_step(roots_of(lo, k), roots_in(m0, root), vp / ROOT_SPAN as int);
    lemma_lack_step(groups_of(lo, k), groups_in(m0, root), vp / 512);
}

/// What mapping `size` bytes at `va` to `pa` does to the leaf entries: those of the range
/// point at the pages from `pa` on, in order, and no other one changes.
pub open spec fn mapped(
    m1: Map<int, u64>,
    m2: Map<int, u64>,
    root: int,
    va: u64,
    pa: u64,
    size: u64,
    perm: u64,
) -> bool {
    forall|vp: int|
        sv39::page_idx(vp) ==> #[trigger] sv39::leaf(m2, root, vp) == if va as int / 4096 <= vp
            < va as int / 4096 + size as int / 4096 {
            sv39::leaf_pte((pa + (vp - va as int / 4096) * 4096) as u64, perm)
        } else {
            sv39::leaf(m1, root, vp)
        }
}

/// Map the range `[va, va+size)` to `[pa, pa+size)` with `perm`, adding the
/// tables that are missing. Nothing in the range may be mapped yet, and there
/// must be pages enough for the tables.
#[verifier::rlimit(60)]
pub fn map_pages(
    fl: &mut FreeList,
    mem: &mut Memory,
    root: u64,
    va: u64,
    pa: u64,
    size: u64,
    perm: u64,
)
    requires
        old(mem).wf(),
        old(fl).wf(old(mem)@),
        sv39::tree(old(mem)@, root as int),
        unlinked(old(fl).pages(), old(mem)@, root as int),
        va % 4096 == 0,
        pa % 4096 == 0,
        size % 4096 == 0,
        size > 0,
        va + size <= VA_MAX,
        pa + size <= u64::MAX,
        perm & PERM_MASK != 0,
        forall|vp: int|
            va / 4096 <= vp < (va + size) / 4096 ==> !sv39::pte_valid(
                #[trigger] sv39::leaf(old(mem)@, root as int, vp),
            ),
        tables_needed(old(mem)@, root as int, va as int / 4096, size as int / 4096) <= old(
            fl,
        ).pages().len(),
    ensures
        final(mem).wf(),
        final(fl).wf(final(mem)@),
        final(fl).start() == old(fl).start(),
        final(fl).pages() == old(fl).pages().skip(
            tables_needed(old(mem)@, root as int, va as int / 4096, size as int / 4096) as int,
        ),
        sv39::tree(final(mem)@, root as int),
        unlinked(final(fl).pages(), final(mem)@, root as int),
        mapped(old(mem)@, final(mem)@, root as int, va, pa, size, perm),
        grown(
            old(mem)@,
            final(mem)@,
            root as int,
            va as int / 4096,
            size as int / 4096,
            old(fl).pages(),
        ),
        forall|a: int|
            !touched(old(mem)@, root as int, va as int / 4096, size as int / 4096, sv39::page_of(a))
                && !old(fl).pages().contains(sv39::page_of(a)) ==> #[trigger] final(mem)@[a] == old(
                mem,
            )@[a],
{
    let ghost lo = va as int / 4096;
    let ghost total = size as int / 4096;
    let ghost m0 = mem@;
    let ghost pages0 = fl.pages();
    let ghost r = root as int;
    let mut off: u64 = 0;
    assert(pages0.skip(0) =~= pages0);
    assert(roots_of(lo, 0).difference(roots_in(m0, r)) =~= Set::<int>::empty());
    assert(groups_of(lo, 0).difference(groups_in(m0, r)) =~= Set::<int>::empty());
    while off < size
        invariant
            mem.wf(),
            fl.wf(mem@),
            fl.start() == old(fl).start(),
            sv39::tree(mem@, r),
            r == root,
            unlinked(fl.pages(), mem@, r),
            va % 4096 == 0,
            size % 4096 == 0,
            off % 4096 == 0,
            off <= size,
            va + size <= VA_MAX,
            pa + size <= u64::MAX,
            lo == va as int / 4096,
            total == size as int / 4096,
            tables_needed(m0, r, lo, total) <= pages0.len(),
            fl.pages() == pages0.skip(tables_needed(m0, r, lo, off as int / 4096) as int),
            grown(m0, mem@, r, lo, off as int / 4096, pages0),
            forall|vp: int|
                sv39::page_idx(vp) ==> #[trigger] sv39::leaf(mem@, r, vp) == if lo <= vp < lo + off as int
                    / 4096 {
                    sv39::leaf_pte((pa + (vp - lo) * 4096) as u64, perm)
                } else {
                    sv39::leaf(m0, r, vp)
                },
            forall|a: int|
                !touched(m0, r, lo, off as int / 4096, sv39::page_of(a)) && !pages0.contains(sv39::page_of(a))
                    ==> #[trigger] mem@[a] == m0[a],
        decreases size - off,
    {
        let ghost k = off as int / 4096;
        let ghost m1 = mem@;
        let ghost pages1 = fl.pages();
        proof {
            assert((va + off) as int / 4096 == lo + k);
            assert((off + 4096) as int / 4096 == k + 1);
            lemma_needed_mono(m0, r, lo, k, total);
            lemma_needed_mono(m0, r, lo, k + 1, total);
            lemma_needed_step(m0, m1, r, lo, k, pages0);
        }
        map_page(fl, mem, root, va + off, pa + off, perm);
        proof {
            assert(pages1.skip(missing(m1, r, lo + k) as int) =~= pages0.skip(
                tables_needed(m0, r, lo, k + 1) as int,
            ));
            assert forall|p: int| #[trigger] pages1.contains(p) implies pages0.contains(p) by {
                let j = pages1.index_of(p);
                assert(pages0[j + tables_needed(m0, r, lo, k)] == p);
            }
            lemma_map_step(
                m0,
                m1,
                mem@,
                r,
                lo,
                k,
                sv39::leaf_pte((pa + off) as u64, perm),
                pages0,
                pages1,
            );
        }
        off = off + PAGE_SIZE;
    }
}

/// What changing the permissions of `size` bytes at `va` does to the leaf entries: those of
/// the range have the new ones, and no other one changes.
pub open spec fn protected(
    m1: Map<int, u64>,
    m2: Map<int, u64>,
    root: int,
    va: u64,
    size: u64,
    perm: u64,
) -> bool {
    forall|vp: int|
        sv39::page_idx(vp) ==> #[trigger] sv39::leaf(m2, root, vp) == if va as int / 4096 <= vp
            < va as int / 4096 + size as int / 4096 {
            (sv39::leaf(m1, root, vp) & !PERM_MASK) | perm
        } else {
            sv39::leaf(m1, root, vp)
        }
}

/// Rewrite the permission bits of already-mapped leaf entries in
/// `[va, va+size)`. The caller flushes the TLB.
#[verifier::rlimit(60)]
pub fn protect(mem: &mut Memory, root: u64, va: u64, size: u64, perm: u64)
    requires
        old(mem).wf(),
        sv39::tree(old(mem)@, root as int),
        va % 4096 == 0,
        size % 4096 == 0,
        va + size <= VA_MAX,
        forall|vp: int|
            va as int / 4096 <= vp < va as int / 4096 + size as int / 4096 ==> sv39::pte_valid(
                #[trigger] sv39::leaf(old(mem)@, root as int, vp),
            ),
    ensures
        final(mem).wf(),
        sv39::tree(final(mem)@, root as int),
        forall|i: int|
            sv39::root_idx(i) ==> #[trigger] sv39::l1(final(mem)@, root as int, i) == sv39::l1(
                old(mem)@,
                root as int,
                i,
            ),
        forall|g: int|
            sv39::group_idx(g) ==> #[trigger] sv39::l0(final(mem)@, root as int, g) == sv39::l0(
                old(mem)@,
                root as int,
                g,
            ),
        protected(old(mem)@, final(mem)@, root as int, va, size, perm),
        forall|a: int|
            !touched(old(mem)@, root as int, va as int / 4096, size as int / 4096, sv39::page_of(a))
                ==> #[trigger] final(mem)@[a] == old(mem)@[a],
{
    let ghost lo = va as int / 4096;
    let ghost total = size as int / 4096;
    let ghost m0 = mem@;
    let ghost r = root as int;
    let mut off: u64 = 0;
    while off < size
        invariant
            mem.wf(),
            sv39::tree(mem@, r),
            r == root,
            va % 4096 == 0,
            size % 4096 == 0,
            off % 4096 == 0,
            off <= size,
            va + size <= VA_MAX,
            lo == va as int / 4096,
            total == size as int / 4096,
            forall|vp: int| lo <= vp < lo + total ==> sv39::pte_valid(#[trigger] sv39::leaf(m0, r, vp)),
            forall|i: int| sv39::root_idx(i) ==> #[trigger] sv39::l1(mem@, r, i) == sv39::l1(m0, r, i),
            forall|g: int| sv39::group_idx(g) ==> #[trigger] sv39::l0(mem@, r, g) == sv39::l0(m0, r, g),
            forall|vp: int|
                sv39::page_idx(vp) ==> #[trigger] sv39::leaf(mem@, r, vp) == if lo <= vp < lo + off as int
                    / 4096 {
                    (sv39::leaf(m0, r, vp) & !PERM_MASK) | perm
                } else {
                    sv39::leaf(m0, r, vp)
                },
            forall|a: int|
                !touched(m0, r, lo, total, sv39::page_of(a)) ==> #[trigger] mem@[a] == m0[a],
        decreases size - off,
    {
        let ghost vp = lo + off as int / 4096;
        let ghost m1 = mem@;
        proof {
            assert((va + off) as int / 4096 == vp);
            assert((off + 4096) as int / 4096 == off as int / 4096 + 1);
            assert(sv39::group_idx(vp / 512) && sv39::page_idx(vp));
            sv39::lemma_tree(m1, r, 0, vp / 512);
            sv39::lemma_leaf(m1, r, vp);
            sv39::lemma_table_pte(0);
            assert(sv39::pte_valid(sv39::leaf(m1, r, vp)));
        }
        let slot: u64 = walk(mem, root, va + off).unwrap();
        let e: u64 = mem.read(slot);
        mem.write(slot, (e & !PERM_MASK) | perm);
        proof {
            sv39::lemma_set_leaf(m1, r, vp, (e & !PERM_MASK) | perm, mem@);
            assert forall|a: int| !touched(m0, r, lo, total, sv39::page_of(a)) implies #[trigger] mem@[a]
                == m0[a] by {
                assert(groups_of(lo, total).contains(vp / 512));
                sv39::lemma_page_of(sv39::l0(m0, r, vp / 512), 8 * (vp % 512));
            }
        }
        off = off + PAGE_SIZE;
    }
}

// --- The kernel map ----------------------------------------------------------

/// An identity-mapped region.
#[derive(Clone, Copy)]
pub struct Region {
    pub start: u64,
    pub size: u64,
    pub perm: u64,
}

impl Region {
    /// Page-aligned and below `VA_MAX`, with a permission to give.
    pub open spec fn wf(self) -> bool {
        &&& self.start % 4096 == 0
        &&& self.size % 4096 == 0
        &&& self.start + self.size <= VA_MAX
        &&& self.perm & PERM_MASK != 0
        &&& self.perm & !PERM_MASK == 0
    }

    /// First virtual page.
    pub open spec fn lo(self) -> int {
        self.start as int / 4096
    }

    /// Number of pages.
    pub open spec fn n(self) -> int {
        self.size as int / 4096
    }

    /// Is virtual page `vp` in the region?
    pub open spec fn has(self, vp: int) -> bool {
        self.lo() <= vp < self.lo() + self.n()
    }
}

/// No two regions share a page.
pub open spec fn regions_disjoint(rs: Seq<Region>) -> bool {
    forall|i: int, j: int, vp: int|
        #![trigger rs[i].has(vp), rs[j].has(vp)]
        0 <= i < j < rs.len() && rs[i].has(vp) ==> !rs[j].has(vp)
}

/// The leaf entry of virtual page `vp` once the first `k` regions are mapped.
pub open spec fn regions_leaf(rs: Seq<Region>, k: int, vp: int) -> u64
    decreases k,
{
    if k <= 0 {
        0
    } else if rs[k - 1].has(vp) {
        sv39::leaf_pte((vp * 4096) as u64, rs[k - 1].perm)
    } else {
        regions_leaf(rs, k - 1, vp)
    }
}

/// The root entries the first `k` regions use.
pub open spec fn regions_roots(rs: Seq<Region>, k: int) -> Set<int>
    decreases k,
{
    if k <= 0 {
        Set::empty()
    } else {
        regions_roots(rs, k - 1).union(roots_of(rs[k - 1].lo(), rs[k - 1].n()))
    }
}

/// The level-0 tables the first `k` regions use.
pub open spec fn regions_groups(rs: Seq<Region>, k: int) -> Set<int>
    decreases k,
{
    if k <= 0 {
        Set::empty()
    } else {
        regions_groups(rs, k - 1).union(groups_of(rs[k - 1].lo(), rs[k - 1].n()))
    }
}

/// Pages that a fresh table mapping the regions takes: its root, one level-1
/// table per root entry in use and one level-0 table per 2 MiB in use.
pub open spec fn regions_pages(rs: Seq<Region>) -> nat {
    1 + regions_roots(rs, rs.len() as int).len() + regions_groups(rs, rs.len() as int).len()
}

/// The union of two finite sets has as many elements as the first one and
/// what the second one adds to it.
proof fn lemma_union_lack(a: Set<int>, b: Set<int>)
    requires
        a.finite(),
        b.finite(),
    ensures
        a.union(b).finite(),
        a.union(b).len() == a.len() + b.difference(a).len(),
{
    assert(b.difference(a).subset_of(b));
    vstd::set_lib::lemma_set_subset_finite(b, b.difference(a));
    assert(a.union(b) =~= a.union(b.difference(a)));
    vstd::set_lib::lemma_set_disjoint_lens(a, b.difference(a));
}

proof fn lemma_regions_finite(rs: Seq<Region>, k: int)
    requires
        0 <= k <= rs.len(),
    ensures
        regions_roots(rs, k).finite(),
        regions_groups(rs, k).finite(),
    decreases k,
{
    if k > 0 {
        lemma_regions_finite(rs, k - 1);
        lemma_range_step(rs[k - 1].lo(), rs[k - 1].n());
    }
}

/// More regions use at least as many tables.
proof fn lemma_regions_mono(rs: Seq<Region>, k: int, j: int)
    requires
        0 <= k <= j <= rs.len(),
    ensures
        regions_roots(rs, k).len() <= regions_roots(rs, j).len(),
        regions_groups(rs, k).len() <= regions_groups(rs, j).len(),
    decreases j - k,
{
    if k < j {
        lemma_regions_finite(rs, k);
        lemma_range_step(rs[k].lo(), rs[k].n());
        lemma_union_lack(regions_roots(rs, k), roots_of(rs[k].lo(), rs[k].n()));
        lemma_union_lack(regions_groups(rs, k), groups_of(rs[k].lo(), rs[k].n()));
        lemma_regions_mono(rs, k + 1, j);
    }
}

/// A freshly zeroed page is a tree without tables.
proof fn lemma_fresh_root(m: Map<int, u64>, root: int)
    requires
        memlayout::dram_page(root),
        forall|i: int| sv39::root_idx(i) ==> #[trigger] sv39::ent(m, root, i) == 0,
    ensures
        sv39::tree(m, root),
        forall|i: int| sv39::root_idx(i) ==> #[trigger] sv39::l1(m, root, i) == -1,
        forall|g: int| sv39::group_idx(g) ==> #[trigger] sv39::l0(m, root, g) == -1,
        forall|vp: int| sv39::page_idx(vp) ==> #[trigger] sv39::leaf(m, root, vp) == 0,
{
    sv39::lemma_table_pte(0);
    assert forall|i: int| sv39::root_idx(i) implies #[trigger] sv39::l1(m, root, i) == -1 by {
        sv39::lemma_l1(m, root, i);
    }
    assert forall|g: int| sv39::group_idx(g) implies #[trigger] sv39::l0(m, root, g) == -1 by {
        sv39::lemma_l0(m, root, g);
        assert(sv39::root_idx(g / 512));
    }
    assert forall|vp: int| sv39::page_idx(vp) implies #[trigger] sv39::leaf(m, root, vp) == 0 by {
        sv39::lemma_leaf(m, root, vp);
        assert(sv39::group_idx(vp / 512));
    }
    reveal(sv39::tree);
}

/// Every table of `root` is one of `pages`.
pub open spec fn tables_from(m: Map<int, u64>, root: int, pages: Seq<int>) -> bool {
    &&& pages.contains(root)
    &&& forall|i: int| sv39::root_idx(i) && #[trigger] sv39::l1(m, root, i) >= 0 ==> pages.contains(sv39::l1(m, root, i))
    &&& forall|g: int| sv39::group_idx(g) && #[trigger] sv39::l0(m, root, g) >= 0 ==> pages.contains(sv39::l0(m, root, g))
}

/// Build a table that identity-maps the regions and nothing else.
#[verifier::rlimit(60)]
fn map_regions(fl: &mut FreeList, mem: &mut Memory, rs: &Vec<Region>) -> (root: u64)
    requires
        old(mem).wf(),
        old(fl).wf(old(mem)@),
        forall|i: int| 0 <= i < rs@.len() ==> (#[trigger] rs@[i]).wf(),
        regions_disjoint(rs@),
        regions_pages(rs@) <= old(fl).pages().len(),
    ensures
        final(mem).wf(),
        final(fl).wf(final(mem)@),
        final(fl).start() == old(fl).start(),
        root == old(fl).pages()[0],
        final(fl).pages() == old(fl).pages().skip(regions_pages(rs@) as int),
        sv39::tree(final(mem)@, root as int),
        unlinked(final(fl).pages(), final(mem)@, root as int),
        tables_from(final(mem)@, root as int, old(fl).pages()),
        forall|vp: int|
            sv39::page_idx(vp) ==> #[trigger] sv39::leaf(final(mem)@, root as int, vp) == regions_leaf(
                rs@,
                rs@.len() as int,
                vp,
            ),
        roots_in(final(mem)@, root as int) == regions_roots(rs@, rs@.len() as int),
        groups_in(final(mem)@, root as int) == regions_groups(rs@, rs@.len() as int),
        forall|a: int|
            !old(fl).pages().contains(sv39::page_of(a)) ==> #[trigger] final(mem)@[a] == old(mem)@[a],
{
    let ghost m0 = mem@;
    let ghost pages0 = fl.pages();
    proof {
        kalloc::lemma_pages(*fl, m0);
    }
    let root: u64 = kalloc::alloc_page(fl, mem).unwrap();
    let ghost r = root as int;
    proof {
        lemma_fresh_root(mem@, r);
        assert forall|p: int| #[trigger] fl.pages().contains(p) implies sv39::off_tables(mem@, r, p)
            && pages0.contains(p) by {
            let k = fl.pages().index_of(p);
            assert(pages0[k + 1] == p);
            kalloc::lemma_pages(*fl, mem@);
        }
        assert(roots_in(mem@, r) =~= Set::<int>::empty());
        assert(groups_in(mem@, r) =~= Set::<int>::empty());
        assert(pages0.drop_first() =~= pages0.skip(1));
        assert forall|a: int| !pages0.contains(sv39::page_of(a)) implies #[trigger] mem@[a] == m0[a] by {
            sv39::lemma_off_page(r, a);
        }
    }
    let mut k: usize = 0;
    while k < rs.len()
        invariant
            mem.wf(),
            fl.wf(mem@),
            fl.start() == old(fl).start(),
            k <= rs@.len(),
            r == root,
            pages0 == old(fl).pages(),
            pages0.len() > 0,
            root == pages0[0],
            pages0.contains(r),
            memlayout::dram_page(r),
            forall|i: int| 0 <= i < rs@.len() ==> (#[trigger] rs@[i]).wf(),
            regions_disjoint(rs@),
            regions_pages(rs@) <= pages0.len(),
            fl.pages() == pages0.skip(
                (1 + regions_roots(rs@, k as int).len() + regions_groups(rs@, k as int).len())
                    as int,
            ),
            forall|p: int| #[trigger] fl.pages().contains(p) ==> pages0.contains(p),
            sv39::tree(mem@, r),
            unlinked(fl.pages(), mem@, r),
            tables_from(mem@, r, pages0),
            forall|vp: int|
                sv39::page_idx(vp) ==> #[trigger] sv39::leaf(mem@, r, vp) == regions_leaf(rs@, k as int, vp),
            roots_in(mem@, r) == regions_roots(rs@, k as int),
            groups_in(mem@, r) == regions_groups(rs@, k as int),
            forall|a: int| !pages0.contains(sv39::page_of(a)) ==> #[trigger] mem@[a] == m0[a],
        decreases rs@.len() - k,
    {
        let reg: Region = rs[k];
        if reg.size > 0 {
            let ghost m1 = mem@;
            let ghost pages1 = fl.pages();
            let ghost lo = reg.lo();
            let ghost n = reg.n();
            proof {
                assert(rs@[k as int].wf());
                lemma_regions_finite(rs@, k as int);
                lemma_range_step(lo, n);
                lemma_union_lack(regions_roots(rs@, k as int), roots_of(lo, n));
                lemma_union_lack(regions_groups(rs@, k as int), groups_of(lo, n));
                lemma_regions_mono(rs@, k as int + 1, rs@.len() as int);
                assert forall|vp: int|
                    reg.start / 4096 <= vp < (reg.start + reg.size) / 4096 implies !sv39::pte_valid(
                    #[trigger] sv39::leaf(m1, r, vp),
                ) by {
                    assert(rs@[k as int].has(vp));
                    sv39::lemma_table_pte(0);
                    lemma_regions_leaf_zero(rs@, k as int, vp);
                    assert(sv39::page_idx(vp));
                }
            }
            map_pages(fl, mem, root, reg.start, reg.start, reg.size, reg.perm);
            proof {
                let used = 1 + regions_roots(rs@, k as int).len() + regions_groups(
                    rs@,
                    k as int,
                ).len();
                assert(pages1.skip(tables_needed(m1, r, lo, n) as int) =~= pages0.skip(
                    (used + tables_needed(m1, r, lo, n)) as int,
                ));
                assert forall|p: int| #[trigger] fl.pages().contains(p) implies pages0.contains(p) by {
                    let j = fl.pages().index_of(p);
                    assert(pages0[j + used + tables_needed(m1, r, lo, n)] == p);
                }
                assert forall|p: int| #[trigger] pages1.contains(p) implies pages0.contains(p) by {
                    let j = pages1.index_of(p);
                    assert(pages0[j + used] == p);
                }
                assert forall|i: int| roots_of(lo, n).contains(i) implies sv39::root_idx(i) by {}
                assert forall|g: int| groups_of(lo, n).contains(g) implies sv39::group_idx(g) by {}
                assert(roots_in(mem@, r) =~= regions_roots(rs@, k as int + 1));
                assert(groups_in(mem@, r) =~= regions_groups(rs@, k as int + 1));
                assert(tables_from(mem@, r, pages0));
                assert forall|a: int| !pages0.contains(sv39::page_of(a)) implies #[trigger] mem@[a]
                    == m0[a] by {
                    assert(!touched(m1, r, lo, n, sv39::page_of(a))) by {
                        reveal(sv39::page_of);
                        lemma_not_touched(m1, r, lo, n, sv39::page_of(a), pages0);
                    }
                }
            }
        } else {
            proof {
                assert(roots_in(mem@, r) =~= regions_roots(rs@, k as int + 1));
                assert(groups_in(mem@, r) =~= regions_groups(rs@, k as int + 1));
            }
        }
        k = k + 1;
    }
    root
}

proof fn lemma_not_touched(m: Map<int, u64>, root: int, lo: int, n: int, p: int, pages: Seq<int>)
    requires
        tables_from(m, root, pages),
        !pages.contains(p),
        p % 4096 == 0,
        0 <= lo,
        lo + n <= 0x400_0000,
    ensures
        !touched(m, root, lo, n, p),
{
    if touched(m, root, lo, n, p) && p != root {
        if exists|i: int| #[trigger] roots_of(lo, n).contains(i) && p == sv39::l1(m, root, i) {
            let i = choose|i: int| #[trigger] roots_of(lo, n).contains(i) && p == sv39::l1(m, root, i);
            assert(sv39::root_idx(i));
            sv39::lemma_l1(m, root, i);
        } else {
            let g = choose|g: int| #[trigger] groups_of(lo, n).contains(g) && p == sv39::l0(m, root, g);
            assert(sv39::group_idx(g));
            sv39::lemma_l0(m, root, g);
        }
    }
}

/// A page of a later region is in none of the earlier ones.
proof fn lemma_regions_leaf_zero(rs: Seq<Region>, k: int, vp: int)
    requires
        0 <= k,
        exists|j: int| k <= j < rs.len() && #[trigger] rs[j].has(vp),
        regions_disjoint(rs),
    ensures
        regions_leaf(rs, k, vp) == 0,
    decreases k,
{
    if k > 0 {
        let j = choose|j: int| k <= j < rs.len() && #[trigger] rs[j].has(vp);
        assert(!rs[k - 1].has(vp));
        lemma_regions_leaf_zero(rs, k - 1, vp);
    }
}

/// Permission bits of read-only data.
pub const PERM_R: u64 = 0x02;

/// Permission bits of data.
pub const PERM_RW: u64 = 0x06;

/// Permission bits of code.
pub const PERM_RX: u64 = 0x0a;

/// The permissions the kernel has on virtual page `vp`: 0 where it has none.
/// Text is R-X; the embedded user images and rodata are R--; data, the heap,
/// the rest of DRAM and the devices are RW-. Nothing carries the U bit.
pub open spec fn kernel_perm(image: KernelImage, vp: int) -> u64 {
    let a = vp * 4096;
    if a == UART0 || PLIC <= a < PLIC + PLIC_SIZE || a == VIRT_TEST {
        PERM_RW
    } else if image.text_start <= a < image.text_end {
        PERM_RX
    } else if image.user_start <= a < image.user_end {
        PERM_R
    } else if image.rodata_start <= a < image.rodata_end {
        PERM_R
    } else if image.data_start <= a < PHYS_TOP {
        PERM_RW
    } else {
        0
    }
}

/// The kernel's leaf entry for virtual page `vp`: the page of the same
/// address, or nothing.
pub open spec fn kernel_leaf(image: KernelImage, vp: int) -> u64 {
    if kernel_perm(image, vp) == 0 {
        0
    } else {
        sv39::leaf_pte((vp * 4096) as u64, kernel_perm(image, vp))
    }
}

/// The regions of the kernel map: the devices, the sections of the image, and
/// all DRAM above it.
pub open spec fn kernel_regions(image: KernelImage) -> Seq<Region> {
    seq![
        Region { start: UART0, size: PAGE_SIZE, perm: PERM_RW },
        Region { start: PLIC, size: PLIC_SIZE, perm: PERM_RW },
        Region { start: VIRT_TEST, size: PAGE_SIZE, perm: PERM_RW },
        Region {
            start: image.text_start,
            size: (image.text_end - image.text_start) as u64,
            perm: PERM_RX,
        },
        Region {
            start: image.user_start,
            size: (image.user_end - image.user_start) as u64,
            perm: PERM_R,
        },
        Region {
            start: image.rodata_start,
            size: (image.rodata_end - image.rodata_start) as u64,
            perm: PERM_R,
        },
        Region {
            start: image.data_start,
            size: (image.kernel_end - image.data_start) as u64,
            perm: PERM_RW,
        },
        Region {
            start: image.kernel_end,
            size: (PHYS_TOP - image.kernel_end) as u64,
            perm: PERM_RW,
        },
    ]
}

/// Pages the kernel's own page table takes.
pub open spec fn kernel_map_pages(image: KernelImage) -> nat {
    regions_pages(kernel_regions(image))
}

/// The kernel's regions are well-formed and share no page.
#[verifier::spinoff_prover]
proof fn lemma_regions_ok(image: KernelImage)
    requires
        image.wf(),
    ensures
        forall|i: int|
            0 <= i < kernel_regions(image).len() ==> (#[trigger] kernel_regions(image)[i]).wf(),
        regions_disjoint(kernel_regions(image)),
{
    assert(0x02u64 & 0x1e != 0 && 0x02u64 & !0x1e == 0) by (bit_vector);
    assert(0x06u64 & 0x1e != 0 && 0x06u64 & !0x1e == 0) by (bit_vector);
    assert(0x0au64 & 0x1e != 0 && 0x0au64 & !0x1e == 0) by (bit_vector);
}

/// Mapping the kernel's regions maps what [`kernel_leaf`] says.
#[verifier::spinoff_prover]
proof fn lemma_regions_map(image: KernelImage, vp: int)
    requires
        image.wf(),
        sv39::page_idx(vp),
    ensures
        regions_leaf(kernel_regions(image), 8, vp) == kernel_leaf(image, vp),
{
    reveal_with_fuel(regions_leaf, 9);
}

/// The tables the kernel's regions use.
#[verifier::spinoff_prover]
proof fn lemma_regions_tables(image: KernelImage)
    requires
        image.wf(),
    ensures
        forall|g: int| #[trigger] regions_groups(kernel_regions(image), 8).contains(g)
            ==> g == 0 || 96 <= g < 98 || g == 128 || 1024 <= g < 1088,
        forall|i: int| #[trigger] regions_roots(kernel_regions(image), 8).contains(i)
            ==> i == 0 || i == 2,
{
    reveal_with_fuel(regions_groups, 9);
    reveal_with_fuel(regions_roots, 9);
}

proof fn lemma_kernel_regions(image: KernelImage)
    requires
        image.wf(),
    ensures
        forall|i: int|
            0 <= i < kernel_regions(image).len() ==> (#[trigger] kernel_regions(image)[i]).wf(),
        regions_disjoint(kernel_regions(image)),
        forall|vp: int|
            sv39::page_idx(vp) ==> #[trigger] regions_leaf(kernel_regions(image), 8, vp)
                == kernel_leaf(image, vp),
        forall|g: int| #[trigger] regions_groups(kernel_regions(image), 8).contains(g)
            ==> g == 0 || 96 <= g < 98 || g == 128 || 1024 <= g < 1088,
        forall|i: int| #[trigger] regions_roots(kernel_regions(image), 8).contains(i)
            ==> i == 0 || i == 2,
{
    lemma_regions_ok(image);
    lemma_regions_tables(image);
    assert forall|vp: int| sv39::page_idx(vp) implies #[trigger] regions_leaf(
        kernel_regions(image),
        8,
        vp,
    ) == kernel_leaf(image, vp) by {
        lemma_regions_map(image, vp);
    }
}

/// The kernel's table takes at most 71 pages: its root, two level-1 tables,
/// four level-0 tables for the devices, and one for each 2 MiB of DRAM.
pub proof fn lemma_kernel_map_pages(image: KernelImage)
    requires
        image.wf(),
    ensures
        kernel_map_pages(image) <= 71,
{
    let rs = kernel_regions(image);
    lemma_kernel_regions(image);
    let roots = set![0int, 2int];
    assert(regions_roots(rs, 8).subset_of(roots));
    vstd::set_lib::lemma_len_subset(regions_roots(rs, 8), roots);
    let dev = set![0int, 96int, 97int, 128int];
    let dram = vstd::set_lib::set_int_range(1024, 1088);
    vstd::set_lib::lemma_int_range(1024, 1088);
    vstd::set_lib::lemma_len_union(dev, dram);
    assert(regions_groups(rs, 8).subset_of(dev.union(dram)));
    vstd::set_lib::lemma_len_subset(regions_groups(rs, 8), dev.union(dram));
}

/// The virtual-memory subsystem: physical memory, the page allocator and the
/// kernel's root page table.
pub struct Vm {
    /// Where the linker put the kernel.
    pub image: KernelImage,
    /// Physical memory.
    pub mem: Memory,
    /// The page allocator.
    pub kmem: FreeList,
    /// Physical address of the kernel's root page table (0 until `init`).
    pub root: u64,
}

/// `root` is the kernel's own page table: it maps exactly what
/// [`kernel_leaf`] says, its tables lie above the heap and are not free, and
/// the root entry that user mappings hang off is unused.
pub open spec fn kernel_table(
    m: Map<int, u64>,
    root: int,
    image: KernelImage,
    pages: Seq<int>,
) -> bool {
    &&& sv39::tree(m, root)
    &&& unlinked(pages, m, root)
    &&& tables_managed(m, root, image.kernel_end + HEAP_SIZE)
    &&& sv39::l1(m, root, 1) == -1
    &&& kernel_mapped(m, root, image)
}

/// `root` maps exactly what [`kernel_leaf`] says.
#[verifier::opaque]
pub open spec fn kernel_mapped(m: Map<int, u64>, root: int, image: KernelImage) -> bool {
    forall|vp: int|
        sv39::page_idx(vp) ==> #[trigger] sv39::leaf(m, root, vp) == kernel_leaf(image, vp)
}

/// Every table of `root` lies in the page allocator's part of DRAM.
#[verifier::opaque]
pub open spec fn tables_managed(m: Map<int, u64>, root: int, start: int) -> bool {
    &&& kalloc::managed(start, root)
    &&& forall|i: int|
        sv39::root_idx(i) && #[trigger] sv39::l1(m, root, i) >= 0 ==> kalloc::managed(
            start,
            sv39::l1(m, root, i),
        )
    &&& forall|g: int|
        sv39::group_idx(g) && #[trigger] sv39::l0(m, root, g) >= 0 ==> kalloc::managed(
            start,
            sv39::l0(m, root, g),
        )
}

/// The kernel's map stays what it is, and its tables where they are, while the
/// tree does.
pub proof fn lemma_kernel_same(m1: Map<int, u64>, m2: Map<int, u64>, root: int, image: KernelImage)
    requires
        kernel_mapped(m1, root, image),
        tables_managed(m1, root, image.kernel_end + HEAP_SIZE),
        sv39::same_tree(m1, m2, root),
    ensures
        kernel_mapped(m2, root, image),
        tables_managed(m2, root, image.kernel_end + HEAP_SIZE),
{
    reveal(tables_managed);
    reveal(kernel_mapped);
}

impl Vm {
    /// The first page the allocator owns.
    pub open spec fn start(self) -> int {
        self.image.kernel_end + HEAP_SIZE
    }

    /// The allocator's list is sound and, once built, so is the kernel table.
    pub open spec fn wf(self) -> bool {
        &&& self.image.wf()
        &&& self.mem.wf()
        &&& self.kmem.wf(self.mem@)
        &&& self.kmem.start() == self.start()
        &&& self.root != 0 ==> kernel_table(
            self.mem@,
            self.root as int,
            self.image,
            self.kmem.pages(),
        )
    }

    /// Memory with every page of DRAM above the kernel and its heap on the
    /// free list, but for the `reserved` range; no page table yet.
    pub fn new(image: KernelImage, mem: Memory, reserved: Option<(u64, u64)>) -> (vm: Vm)
        requires
            image.wf(),
            mem.wf(),
        ensures
            vm.wf(),
            vm.image == image,
            vm.root == 0,
            vm.kmem.pages() == kalloc::seeded(vm.start(), PHYS_TOP as int, reserved),
            forall|a: int| a < vm.start() ==> #[trigger] vm.mem@[a] == mem@[a],
            forall|a: int|
                !vm.kmem.pages().contains(sv39::page_of(a)) ==> #[trigger] vm.mem@[a] == mem@[a],
    {
        let mut m: Memory = mem;
        let mut kmem: FreeList = FreeList::new(&image);
        kalloc::init(&mut kmem, &mut m, reserved);
        Vm { image, mem: m, kmem, root: 0 }
    }
}

/// The kernel's root page table, 0 before it is built.
pub fn kernel_root(vm: &Vm) -> (root: u64)
    ensures
        root == vm.root,
{
    vm.root
}

/// The regions of the kernel map.
#[verifier::rlimit(60)]
fn regions(image: &KernelImage) -> (rs: Vec<Region>)
    requires
        image.wf(),
    ensures
        rs@ == kernel_regions(*image),
{
    let mut rs: Vec<Region> = Vec::new();
    // Devices.
    rs.push(Region { start: UART0, size: PAGE_SIZE, perm: PERM_RW });
    rs.push(Region { start: PLIC, size: PLIC_SIZE, perm: PERM_RW });
    rs.push(Region { start: VIRT_TEST, size: PAGE_SIZE, perm: PERM_RW });
    // Kernel image, tightest permissions per section.
    rs.push(
        Region {
            start: image.text_start,
            size: image.text_end - image.text_start,
            perm: PERM_RX,
        },
    );
    // Embedded user program images: read-only kernel data. The loader copies
    // them into each process's private address space, so the kernel only needs
    // to read them (no X, they run elsewhere).
    rs.push(
        Region {
            start: image.user_start,
            size: image.user_end - image.user_start,
            perm: PERM_R,
        },
    );
    rs.push(
        Region {
            start: image.rodata_start,
            size: image.rodata_end - image.rodata_start,
            perm: PERM_R,
        },
    );
    rs.push(
        Region {
            start: image.data_start,
            size: image.kernel_end - image.data_start,
            perm: PERM_RW,
        },
    );
    // Heap + all allocatable DRAM (kernel stacks, page tables, ...).
    rs.push(
        Region { start: image.kernel_end, size: PHYS_TOP - image.kernel_end, perm: PERM_RW },
    );
    assert(rs@ =~= kernel_regions(*image));
    rs
}

/// Does any of the regions use the level-0 table number `g`?
fn uses_group(rs: &Vec<Region>, g: u64) -> (used: bool)
    requires
        forall|i: int| 0 <= i < rs@.len() ==> (#[trigger] rs@[i]).wf(),
    ensures
        used == regions_groups(rs@, rs@.len() as int).contains(g as int),
{
    let mut used: bool = false;
    let mut i: usize = 0;
    while i < rs.len()
        invariant
            i <= rs@.len(),
            forall|j: int| 0 <= j < rs@.len() ==> (#[trigger] rs@[j]).wf(),
            used == regions_groups(rs@, i as int).contains(g as int),
        decreases rs@.len() - i,
    {
        assert(rs@[i as int].wf());
        let lo: u64 = rs[i].start / PAGE_SIZE;
        let n: u64 = rs[i].size / PAGE_SIZE;
        if n > 0 && lo / 512 <= g && g <= (lo + n - 1) / 512 {
            used = true;
        }
        i = i + 1;
    }
    used
}

/// Pages the kernel's own page table takes.
pub fn map_cost(image: &KernelImage) -> (n: u64)
    requires
        image.wf(),
    ensures
        n == kernel_map_pages(*image),
        n <= 71,
{
    let rs: Vec<Region> = regions(image);
    let ghost groups = regions_groups(rs@, 8);
    proof {
        lemma_kernel_regions(*image);
        lemma_kernel_map_pages(*image);
        lemma_regions_finite(rs@, 8);
        lemma_kernel_roots(*image);
        assert(below_set(groups, 0) =~= Set::<int>::empty());
    }
    let mut count: u64 = 0;
    let mut g: u64 = 0;
    while g < 1088
        invariant
            g <= 1088,
            rs@.len() == 8,
            forall|i: int| 0 <= i < rs@.len() ==> (#[trigger] rs@[i]).wf(),
            groups == regions_groups(rs@, 8),
            groups.finite(),
            count <= g,
            count == below_set(groups, g as int).len(),
        decreases 1088 - g,
    {
        proof {
            assert(below_set(groups, g as int).subset_of(groups));
            vstd::set_lib::lemma_set_subset_finite(groups, below_set(groups, g as int));
        }
        if uses_group(&rs, g) {
            assert(below_set(groups, g + 1) =~= below_set(groups, g as int).insert(g as int));
            count = count + 1;
        } else {
            assert(below_set(groups, g + 1) =~= below_set(groups, g as int));
        }
        g = g + 1;
    }
    assert(below_set(groups, 1088) =~= groups);
    3 + count
}

/// The elements of `s` in `[0, n)`.
spec fn below_set(s: Set<int>, n: int) -> Set<int> {
    s.filter(|x: int| 0 <= x < n)
}

/// The kernel's regions use two root entries: one for the devices, one for
/// DRAM.
proof fn lemma_kernel_roots(image: KernelImage)
    requires
        image.wf(),
    ensures
        regions_roots(kernel_regions(image), 8).len() == 2,
{
    let rs = kernel_regions(image);
    let roots = regions_roots(rs, 8);
    lemma_kernel_regions(image);
    reveal_with_fuel(regions_roots, 9);
    assert(roots_of(rs[0].lo(), rs[0].n()).contains(0));
    assert(roots_of(rs[3].lo(), rs[3].n()).contains(2));
    assert(roots =~= set![0int, 2int]);
}

/// Build the kernel page table: identity mappings with least privilege.
fn kvmmake(fl: &mut FreeList, mem: &mut Memory, image: &KernelImage) -> (root: u64)
    requires
        image.wf(),
        old(mem).wf(),
        old(fl).wf(old(mem)@),
        old(fl).start() == image.kernel_end + HEAP_SIZE,
        kernel_map_pages(*image) <= old(fl).pages().len(),
    ensures
        final(mem).wf(),
        final(fl).wf(final(mem)@),
        final(fl).start() == old(fl).start(),
        root == old(fl).pages()[0],
        root != 0,
        final(fl).pages() == old(fl).pages().skip(kernel_map_pages(*image) as int),
        kernel_table(final(mem)@, root as int, *image, final(fl).pages()),
        tables_from(final(mem)@, root as int, old(fl).pages()),
        forall|a: int|
            !old(fl).pages().contains(sv39::page_of(a)) ==> #[trigger] final(mem)@[a] == old(
                mem,
            )@[a],
{
    let rs: Vec<Region> = regions(image);
    proof {
        lemma_kernel_regions(*image);
        kalloc::lemma_pages(*fl, mem@);
        assert(fl.pages().contains(fl.pages()[0]));
    }
    let root: u64 = map_regions(fl, mem, &rs);
    proof {
        assert(!regions_roots(rs@, 8).contains(1));
        assert(!roots_in(mem@, root as int).contains(1));
        sv39::lemma_l1(mem@, root as int, 1);
        reveal(tables_managed);
        reveal(kernel_mapped);
    }
    root
}

/// Build the kernel page table (once, at boot, before enabling paging).
pub fn init(vm: &mut Vm)
    requires
        old(vm).wf(),
        kernel_map_pages(old(vm).image) <= old(vm).kmem.pages().len(),
    ensures
        final(vm).wf(),
        final(vm).image == old(vm).image,
        final(vm).root == old(vm).kmem.pages()[0],
        final(vm).root != 0,
        kernel_mapped(final(vm).mem@, final(vm).root as int, final(vm).image),
        final(vm).kmem.pages() == old(vm).kmem.pages().skip(
            kernel_map_pages(old(vm).image) as int,
        ),
        forall|a: int|
            !old(vm).kmem.pages().contains(sv39::page_of(a)) ==> #[trigger] final(vm).mem@[a]
                == old(vm).mem@[a],
{
    let root: u64 = kvmmake(&mut vm.kmem, &mut vm.mem, &vm.image);
    vm.root = root;
}

/// The `satp` value that makes the table at `root` the active Sv39 table.
pub open spec fn satp_of(root: u64) -> u64 {
    0x8000_0000_0000_0000 | (root >> 12u64)
}

/// `satp` tells the root tables apart.
pub proof fn lemma_satp(r: u64, q: u64)
    requires
        r % 4096 == 0,
        q % 4096 == 0,
        r != q,
    ensures
        satp_of(r) != satp_of(q),
{
    assert(0x8000_0000_0000_0000 | (r >> 12u64) != 0x8000_0000_0000_0000 | (q >> 12u64))
        by (bit_vector)
        requires
            r % 4096 == 0,
            q % 4096 == 0,
            r != q,
    ;
}

/// The `satp` value that puts this hart onto the kernel page table.
pub fn init_hart(vm: &Vm) -> (satp: u64)
    requires
        vm.root != 0,
    ensures
        satp == satp_of(vm.root),
{
    switch_to(kernel_root(vm))
}

/// The `satp` value that points at `root`. The caller writes it between two
/// TLB flushes. Every table this kernel builds contains the full kernel
/// mapping, so switching is always safe: whatever kernel code runs next is
/// addressable under the new table.
pub fn switch_to(root: u64) -> (satp: u64)
    requires
        root != 0,
    ensures
        satp == satp_of(root),
{
    0x8000_0000_0000_0000 | (root >> 12u64)
}

/// What the permissions of the kernel map say.
pub open spec fn may(e: u64, r: bool, w: bool, x: bool) -> bool {
    &&& (e & PTE_R != 0) == r
    &&& (e & PTE_W != 0) == w
    &&& (e & PTE_X != 0) == x
    &&& e & PTE_U == 0
}

/// A byte is on the same side of a page boundary as its page.
proof fn lemma_side(bound: int, va: int)
    requires
        bound % 4096 == 0,
    ensures
        bound <= va <==> bound <= va - va % 4096,
{
    let n = bound / 4096;
    let q = va / 4096;
    assert(bound == 4096 * n);
    assert(va - va % 4096 == 4096 * q);
    if bound <= va && n > q {
        assert(4096 * n >= 4096 * q + 4096) by (nonlinear_arith)
            requires
                n >= q + 1,
        ;
    }
}

/// What the kernel may do at `va` is what it may do on its page.
proof fn lemma_kernel_perm(image: KernelImage, va: u64)
    requires
        image.wf(),
    ensures
        ({
            let page = va - va % PAGE_SIZE;
            let device = page == UART0 || PLIC <= va < PLIC + PLIC_SIZE || page == VIRT_TEST;
            let text = image.text_start <= va < image.text_end;
            let constant = image.user_start <= va < image.user_end || image.rodata_start <= va
                < image.rodata_end;
            let data = image.data_start <= va < PHYS_TOP;
            &&& kernel_perm(image, va as int / 4096) == if device {
                PERM_RW
            } else if text {
                PERM_RX
            } else if constant {
                PERM_R
            } else if data {
                PERM_RW
            } else {
                0
            }
            &&& text ==> !device
            &&& constant ==> !device && !text
            &&& data ==> !device && !text && !constant
        }),
{
    let a = va as int;
    lemma_side(PLIC as int, a);
    lemma_side(PLIC + PLIC_SIZE, a);
    lemma_side(PHYS_TOP as int, a);
    lemma_side(image.text_start as int, a);
    lemma_side(image.text_end as int, a);
    lemma_side(image.user_start as int, a);
    lemma_side(image.user_end as int, a);
    lemma_side(image.rodata_start as int, a);
    lemma_side(image.rodata_end as int, a);
    lemma_side(image.data_start as int, a);
}

/// The kernel is identity-mapped with least privilege: an address the kernel
/// does not use translates to nothing, every other one to itself; code can be
/// executed and not written, read-only data can only be read, data and devices
/// can be written and not executed, and user mode can touch none of it.
#[verifier::spinoff_prover]
pub proof fn lemma_kernel_map(vm: Vm, va: u64)
    requires
        vm.wf(),
        vm.root != 0,
        va < VA_MAX,
    ensures
        ({
            let image = vm.image;
            let page = va - va % PAGE_SIZE;
            let t = translation(vm.mem@, vm.root as int, va);
            let device = page == UART0 || PLIC <= va < PLIC + PLIC_SIZE || page == VIRT_TEST;
            let text = image.text_start <= va < image.text_end;
            let constant = image.user_start <= va < image.user_end || image.rodata_start <= va
                < image.rodata_end;
            let data = image.data_start <= va < PHYS_TOP;
            &&& t is Some <==> device || text || constant || data
            &&& t matches Some((pa, e)) ==> {
                &&& pa == va
                &&& device || data ==> may(e, true, true, false)
                &&& text ==> may(e, true, false, true)
                &&& constant ==> may(e, true, false, false)
            }
        }),
{
    let vp = va as int / 4096;
    let perm = kernel_perm(vm.image, vp);
    let page = (va - va % PAGE_SIZE) as u64;
    assert(sv39::page_idx(vp));
    assert(sv39::leaf(vm.mem@, vm.root as int, vp) == kernel_leaf(vm.image, vp)) by {
        reveal(kernel_mapped);
    }
    assert(vp * 4096 == page);
    lemma_kernel_perm(vm.image, va);
    sv39::lemma_table_pte(0);
    let off = va % PAGE_SIZE;
    assert(page | off == page + off) by (bit_vector)
        requires
            page % 4096 == 0,
            off < 4096,
    ;
    assert(0x02u64 & 2 != 0 && 0x02u64 & 4 == 0 && 0x02u64 & 8 == 0 && 0x02u64 & 16 == 0 && 0x02u64
        & !0x1eu64 == 0 && 0x06u64 & 2 != 0 && 0x06u64 & 4 != 0 && 0x06u64 & 8 == 0 && 0x06u64 & 16
        == 0 && 0x06u64 & !0x1eu64 == 0 && 0x0au64 & 2 != 0 && 0x0au64 & 4 == 0 && 0x0au64 & 8 != 0
        && 0x0au64 & 16 == 0 && 0x0au64 & !0x1eu64 == 0) by (bit_vector);
    if perm != 0 {
        sv39::lemma_leaf_pte(page, perm);
        let e = sv39::leaf_pte(page, perm);
        assert(((e >> 10u64) << 12u64) == page);
    }
}

/// What is mapped is what translates: an address on a page that was mapped to
/// the page at `pa` with `perm` translates to the same offset there, with those
/// permissions.
pub proof fn lemma_mapped_translates(m: Map<int, u64>, root: int, va: u64, pa: u64, perm: u64)
    requires
        va < VA_MAX,
        pa % 4096 == 0,
        perm & !PERM_MASK == 0,
        sv39::leaf(m, root, va as int / 4096) == sv39::leaf_pte(pa, perm),
    ensures
        translation(m, root, va) matches Some((to, e)) && to == pa + va % PAGE_SIZE && e
            & PTE_R == perm & PTE_R && e & PTE_W == perm & PTE_W && e & PTE_X == perm & PTE_X && e
            & PTE_U == perm & PTE_U,
{
    sv39::lemma_leaf_pte(pa, perm);
    let off = va % PAGE_SIZE;
    assert(pa | off == pa + off) by (bit_vector)
        requires
            pa % 4096 == 0,
            off < 4096,
    ;
    let e = sv39::leaf_pte(pa, perm);
    assert(((e >> 10u64) << 12u64) == pa);
}

/// Changing the permissions of a page changes nothing else: it translates to
/// where it did, with the new permissions.
pub proof fn lemma_protected_translates(
    m1: Map<int, u64>,
    m2: Map<int, u64>,
    root: int,
    va: u64,
    perm: u64,
)
    requires
        va < VA_MAX,
        perm & !PERM_MASK == 0,
        translation(m1, root, va) is Some,
        sv39::leaf(m2, root, va as int / 4096) == (sv39::leaf(m1, root, va as int / 4096)
            & !PERM_MASK) | perm,
    ensures
        ({
            let (to1, _) = translation(m1, root, va)->0;
            translation(m2, root, va) matches Some((to2, e)) && to2 == to1 && e & PERM_MASK == perm
        }),
{
    let e = sv39::leaf(m1, root, va as int / 4096);
    let e2 = (e & !PERM_MASK) | perm;
    assert((e2 >> 10u64) << 12u64 == (e >> 10u64) << 12u64 && e2 & 1 == e & 1 && e2 & 0x1e == perm)
        by (bit_vector)
        requires
            e2 == (e & !0x1eu64) | perm,
            perm & !0x1eu64 == 0,
    ;
}

/// After mapping a range, every address in it translates to the address as far behind `pa`
/// as it is behind `va`, with the permissions asked for, and every other address to what it
/// did before.
#[verifier::spinoff_prover]
#[verifier::rlimit(40)]
pub proof fn lemma_range_translates(
    m1: Map<int, u64>,
    m2: Map<int, u64>,
    root: int,
    va: u64,
    pa: u64,
    size: u64,
    perm: u64,
    a: u64,
)
    requires
        va % 4096 == 0,
        pa % 4096 == 0,
        size % 4096 == 0,
        pa + size <= u64::MAX,
        perm & !PERM_MASK == 0,
        mapped(m1, m2, root, va, pa, size, perm),
        a < 0x40_0000_0000,
    ensures
        va <= a < va + size ==> (translation(m2, root, a) matches Some((to, e)) && to == pa + (a - va)
            && e & 2 == perm & 2 && e & 4 == perm & 4 && e & 8 == perm & 8 && e & 16 == perm & 16),
        !(va <= a < va + size) ==> translation(m2, root, a) == translation(m1, root, a),
{
    let vp = a as int / 4096;
    assert(sv39::page_idx(vp));
    if va <= a < va + size {
        let f = (pa + (vp - va as int / 4096) * 4096) as u64;
        assert(va as int / 4096 <= vp < va as int / 4096 + size as int / 4096);
        assert(f % 4096 == 0);
        lemma_mapped_translates(m2, root, a, f, perm);
    } else {
        assert(!(va as int / 4096 <= vp < va as int / 4096 + size as int / 4096));
    }
}

/// Translation is what the processor does: nine bits of the address pick the entry of each of
/// three tables, highest first; an entry whose lowest bit is clear ends the walk; the bits of
/// an entry from the tenth on are the number of the page it points at.
#[verifier::spinoff_prover]
#[verifier::rlimit(40)]
pub proof fn lemma_processor_walk(m: Map<int, u64>, root: int, va: u64)
    requires
        va < 0x40_0000_0000,
    ensures
        ({
            let e2 = m[root + 8 * (va as int / 0x4000_0000)];
            let t1 = ((e2 >> 10u64) << 12u64) as int;
            let e1 = m[t1 + 8 * (va as int / 0x20_0000 % 512)];
            let t0 = ((e1 >> 10u64) << 12u64) as int;
            let e0 = m[t0 + 8 * (va as int / 0x1000 % 512)];
            &&& translation(m, root, va) is Some <==> e2 & 1 != 0 && e1 & 1 != 0 && e0 & 1 != 0
            &&& translation(m, root, va) matches Some((pa, e)) ==> e == e0 && pa == ((e0 >> 10u64)
                << 12u64) | (va % 4096)
        }),
{
    let vp = va as int / 4096;
    sv39::lemma_leaf(m, root, vp);
    sv39::lemma_l0(m, root, vp / 512);
    sv39::lemma_l1(m, root, vp / 512 / 512);
    sv39::lemma_table_pte(0);
    assert(vp / 512 / 512 == va as int / 0x4000_0000);
    assert(vp / 512 == va as int / 0x20_0000);
}

/// Changing the permissions of a range changes them for every address in it, moves none of
/// them, and concerns no other address.
pub proof fn lemma_range_protected(
    m1: Map<int, u64>,
    m2: Map<int, u64>,
    root: int,
    va: u64,
    size: u64,
    perm: u64,
    a: u64,
)
    requires
        va % 4096 == 0,
        size % 4096 == 0,
        perm & !PERM_MASK == 0,
        protected(m1, m2, root, va, size, perm),
        a < 0x40_0000_0000,
        translation(m1, root, a) is Some,
    ensures
        va <= a < va + size ==> (translation(m2, root, a) matches Some((to2, e)) && translation(
            m1,
            root,
            a,
        ) matches Some((to1, _)) && to2 == to1 && e & 0x1e == perm),
        !(va <= a < va + size) ==> translation(m2, root, a) == translation(m1, root, a),
{
    let vp = a as int / 4096;
    assert(sv39::page_idx(vp));
    if va <= a < va + size {
        assert(va as int / 4096 <= vp < va as int / 4096 + size as int / 4096);
        lemma_protected_translates(m1, m2, root, a, perm);
    } else {
        assert(!(va as int / 4096 <= vp < va as int / 4096 + size as int / 4096));
    }
}

} // verus!
