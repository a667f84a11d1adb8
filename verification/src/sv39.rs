//! The model of an Sv39 page table: entries, the tables that a root reaches,
//! the leaf of each virtual page, and how single writes change them.
use vstd::prelude::*;

use crate::memlayout;
use crate::physmem;

verus! {


// PTE permission/status bits.
pub const PTE_V: u64 = 0x01;

pub const PTE_R: u64 = 0x02;

pub const PTE_W: u64 = 0x04;

pub const PTE_X: u64 = 0x08;

pub const PTE_U: u64 = 0x10;

pub const PTE_A: u64 = 0x40;

pub const PTE_D: u64 = 0x80;

/// The four permission bits.
pub const PERM_MASK: u64 = 0x1e;

/// One past the highest address of the lower half of the Sv39 space: 256 GiB.
pub const VA_MAX: u64 = 0x40_0000_0000;

/// Virtual pages under one root entry.
pub const ROOT_SPAN: u64 = 0x4_0000;

// --- Page-table entries ------------------------------------------------------

/// Is the entry `e` in use?
pub open spec fn pte_valid(e: u64) -> bool {
    e & PTE_V != 0
}

/// The physical page the entry `e` points at.
pub open spec fn pte_pa(e: u64) -> int {
    ((e >> 10u64) << 12u64) as int
}

/// An entry for the page at `pa` with no flag set.
pub open spec fn pa_pte(pa: u64) -> u64 {
    (pa >> 12u64) << 10u64
}

/// An entry that points at the next-level table at `pa`.
pub open spec fn table_pte(pa: u64) -> u64 {
    pa_pte(pa) | PTE_V
}

/// The leaf entry that maps the page at `pa` with permissions `perm`. The
/// accessed and dirty bits are preset: some hardware traps instead of
/// updating them itself.
pub open spec fn leaf_pte(pa: u64, perm: u64) -> u64 {
    pa_pte(pa) | perm | PTE_A | PTE_D | PTE_V
}

/// An entry built from a page address and flags gives both back.
pub proof fn lemma_pte(pa: u64, flags: u64)
    requires
        pa % 4096 == 0,
        flags < 1024,
    ensures
        pte_pa(pa_pte(pa) | flags) == pa,
        (pa_pte(pa) | flags) & 0x3ff == flags,
        forall|mask: u64| mask < 1024 ==> #[trigger] ((pa_pte(pa) | flags) & mask) == flags & mask,
{
    assert(((((pa >> 12u64) << 10u64) | flags) >> 10u64) << 12u64 == pa) by (bit_vector)
        requires
            pa % 4096 == 0,
            flags < 1024,
    ;
    assert((((pa >> 12u64) << 10u64) | flags) & 0x3ff == flags) by (bit_vector)
        requires
            flags < 1024,
    ;
    assert forall|mask: u64| mask < 1024 implies #[trigger] ((pa_pte(pa) | flags) & mask) == flags
        & mask by {
        assert((((pa >> 12u64) << 10u64) | flags) & mask == flags & mask) by (bit_vector)
            requires
                mask < 1024,
        ;
    }
}

/// A table entry is valid and points at its table; zero is not valid.
pub proof fn lemma_table_pte(pa: u64)
    requires
        pa % 4096 == 0,
    ensures
        pte_valid(table_pte(pa)),
        pte_pa(table_pte(pa)) == pa,
        !pte_valid(0),
{
    lemma_pte(pa, PTE_V);
    assert(1u64 & 1 != 0 && 0u64 & 1 == 0) by (bit_vector);
}

/// What a leaf entry with permissions inside the mask says.
pub proof fn lemma_leaf_pte(pa: u64, perm: u64)
    requires
        pa % 4096 == 0,
        perm & !PERM_MASK == 0,
    ensures
        pte_valid(leaf_pte(pa, perm)),
        pte_pa(leaf_pte(pa, perm)) == pa,
        leaf_pte(pa, perm) & 0x3ff == perm | PTE_A | PTE_D | PTE_V,
        leaf_pte(pa, perm) & PTE_R == perm & PTE_R,
        leaf_pte(pa, perm) & PTE_W == perm & PTE_W,
        leaf_pte(pa, perm) & PTE_X == perm & PTE_X,
        leaf_pte(pa, perm) & PTE_U == perm & PTE_U,
{
    let b = pa_pte(pa);
    let f = perm | PTE_A | PTE_D | PTE_V;
    assert(b | perm | 0x40 | 0x80 | 0x01 == b | (perm | 0x40 | 0x80 | 0x01)) by (bit_vector);
    assert(f < 1024 && f & 1 != 0 && f & 2 == perm & 2 && f & 4 == perm & 4 && f & 8 == perm & 8
        && f & 0x10 == perm & 0x10) by (bit_vector)
        requires
            perm & !0x1e == 0,
            f == perm | 0x40 | 0x80 | 0x01,
    ;
    lemma_pte(pa, f);
}

/// The permissions of an entry are those of its flags that the mask lets through.
pub proof fn lemma_rights(e: u64)
    ensures
        (e & PERM_MASK) & !PERM_MASK == 0,
        (e & PERM_MASK) & PTE_R == e & PTE_R,
        (e & PERM_MASK) & PTE_W == e & PTE_W,
        (e & PERM_MASK) & PTE_X == e & PTE_X,
        (e & PERM_MASK) & PTE_U == e & PTE_U,
{
    assert((e & 0x1e) & !0x1e == 0 && (e & 0x1e) & 2 == e & 2 && (e & 0x1e) & 4 == e & 4 && (e
        & 0x1e) & 8 == e & 8 && (e & 0x1e) & 0x10 == e & 0x10) by (bit_vector);
}

// --- The tree ----------------------------------------------------------------

/// The page that holds the byte at `a`.
#[verifier::opaque]
pub open spec fn page_of(a: int) -> int {
    a - a % 4096
}

/// A byte of a page is on that page.
pub proof fn lemma_page_of(p: int, k: int)
    requires
        memlayout::dram_page(p),
        0 <= k < 4096,
    ensures
        page_of(p + k) == p,
{
    reveal(page_of);
}

/// A byte that is on another page lies outside this one.
pub proof fn lemma_off_page(p: int, a: int)
    requires
        memlayout::dram_page(p),
        page_of(a) != p,
    ensures
        a < p || p + 4096 <= a,
{
    reveal(page_of);
}

/// Entry `i` of the table at `t`.
pub open spec fn ent(m: Map<int, u64>, t: int, i: int) -> u64 {
    m[t + 8 * i]
}

/// The address of the page the entry `e` points at, or -1 where `e` is not
/// valid.
pub open spec fn target(e: u64) -> int {
    if pte_valid(e) {
        pte_pa(e)
    } else {
        -1
    }
}

/// The level-1 table under root entry `i`, or -1.
#[verifier::opaque]
pub open spec fn l1(m: Map<int, u64>, root: int, i: int) -> int {
    target(ent(m, root, i))
}

/// The level-0 table for the `g`-th group of 512 virtual pages, or -1.
#[verifier::opaque]
pub open spec fn l0(m: Map<int, u64>, root: int, g: int) -> int {
    let t = l1(m, root, g / 512);
    if t >= 0 {
        target(ent(m, t, g % 512))
    } else {
        -1
    }
}

/// The leaf entry for virtual page `vp`, or 0 where there is no table for it.
#[verifier::opaque]
pub open spec fn leaf(m: Map<int, u64>, root: int, vp: int) -> u64 {
    let t = l0(m, root, vp / 512);
    if t >= 0 {
        ent(m, t, vp % 512)
    } else {
        0
    }
}

/// What the level-1 table under root entry `i` is.
pub proof fn lemma_l1(m: Map<int, u64>, root: int, i: int)
    ensures
        l1(m, root, i) == target(ent(m, root, i)),
{
    reveal(l1);
}

/// What the level-0 table of group `g` is.
pub proof fn lemma_l0(m: Map<int, u64>, root: int, g: int)
    ensures
        l0(m, root, g) == if l1(m, root, g / 512) >= 0 {
            target(ent(m, l1(m, root, g / 512), g % 512))
        } else {
            -1
        },
{
    reveal(l0);
}

/// What the leaf entry of virtual page `vp` is.
pub proof fn lemma_leaf(m: Map<int, u64>, root: int, vp: int)
    ensures
        leaf(m, root, vp) == if l0(m, root, vp / 512) >= 0 {
            ent(m, l0(m, root, vp / 512), vp % 512)
        } else {
            0
        },
{
    reveal(leaf);
}

pub open spec fn root_idx(i: int) -> bool {
    0 <= i < 512
}

pub open spec fn group_idx(g: int) -> bool {
    0 <= g < 0x4_0000
}

pub open spec fn page_idx(vp: int) -> bool {
    0 <= vp < 0x800_0000
}

/// The tables reachable from `root` form a tree of DRAM pages: no page serves
/// as two of them.
#[verifier::opaque]
pub open spec fn tree(m: Map<int, u64>, root: int) -> bool {
    &&& memlayout::dram_page(root)
    &&& forall|i: int|
        root_idx(i) && l1(m, root, i) >= 0 ==> memlayout::dram_page(#[trigger] l1(m, root, i)) && l1(
            m,
            root,
            i,
        ) != root
    &&& forall|i: int, k: int|
        #![trigger l1(m, root, i), l1(m, root, k)]
        root_idx(i) && root_idx(k) && i != k && l1(m, root, i) >= 0 ==> l1(m, root, i) != l1(
            m,
            root,
            k,
        )
    &&& forall|g: int|
        group_idx(g) && l0(m, root, g) >= 0 ==> memlayout::dram_page(#[trigger] l0(m, root, g))
            && l0(m, root, g) != root
    &&& forall|g: int, i: int|
        #![trigger l0(m, root, g), l1(m, root, i)]
        group_idx(g) && root_idx(i) && l0(m, root, g) >= 0 ==> l0(m, root, g) != l1(m, root, i)
    &&& forall|g: int, k: int|
        #![trigger l0(m, root, g), l0(m, root, k)]
        group_idx(g) && group_idx(k) && g != k && l0(m, root, g) >= 0 ==> l0(m, root, g) != l0(
            m,
            root,
            k,
        )
}

/// The tables of a tree are pages of DRAM, and distinct.
pub proof fn lemma_tree(m: Map<int, u64>, root: int, i: int, g: int)
    requires
        tree(m, root),
        root_idx(i),
        group_idx(g),
    ensures
        memlayout::dram_page(root),
        l1(m, root, i) >= 0 ==> memlayout::dram_page(l1(m, root, i)) && l1(m, root, i) != root,
        l0(m, root, g) >= 0 ==> memlayout::dram_page(l0(m, root, g)) && l0(m, root, g) != root
            && l0(m, root, g) != l1(m, root, i),
{
    reveal(tree);
}

/// Different root entries lead to different tables.
pub proof fn lemma_tree_distinct(m: Map<int, u64>, root: int, i: int, k: int)
    requires
        tree(m, root),
        root_idx(i),
        root_idx(k),
        i != k,
        l1(m, root, i) >= 0,
    ensures
        l1(m, root, i) != l1(m, root, k),
{
    reveal(tree);
}

/// Different groups have different level-0 tables.
pub proof fn lemma_tree_distinct0(m: Map<int, u64>, root: int, g: int, k: int)
    requires
        tree(m, root),
        group_idx(g),
        group_idx(k),
        g != k,
        l0(m, root, g) >= 0,
    ensures
        l0(m, root, g) != l0(m, root, k),
{
    reveal(tree);
}

/// The page at `p` is none of the tables reachable from `root`.
pub open spec fn off_tables(m: Map<int, u64>, root: int, p: int) -> bool {
    &&& p != root
    &&& forall|i: int| root_idx(i) ==> #[trigger] l1(m, root, i) != p
    &&& forall|g: int| group_idx(g) ==> #[trigger] l0(m, root, g) != p
}

/// `m1` and `m2` hold the same tables and leaves under `root`.
pub open spec fn same_tree(m1: Map<int, u64>, m2: Map<int, u64>, root: int) -> bool {
    &&& forall|i: int| root_idx(i) ==> #[trigger] l1(m2, root, i) == l1(m1, root, i)
    &&& forall|g: int| group_idx(g) ==> #[trigger] l0(m2, root, g) == l0(m1, root, g)
    &&& forall|vp: int| page_idx(vp) ==> #[trigger] leaf(m2, root, vp) == leaf(m1, root, vp)
}

/// The new memory differs from the old one only in the word at `a`.
pub open spec fn only_word(m1: Map<int, u64>, m2: Map<int, u64>, a: int) -> bool {
    forall|b: int| b != a ==> #[trigger] m2[b] == m1[b]
}

pub proof fn lemma_tree_l1(m: Map<int, u64>, m2: Map<int, u64>, root: int, i: int, p: int)
    requires
        tree(m, root),
        memlayout::dram_page(p),
        off_tables(m, root, p),
        forall|k: int|
            root_idx(k) ==> #[trigger] l1(m2, root, k) == if k == i {
                p
            } else {
                l1(m, root, k)
            },
        forall|g: int| group_idx(g) ==> #[trigger] l0(m2, root, g) == l0(m, root, g),
    ensures
        tree(m2, root),
{
    reveal(tree);
}

pub proof fn lemma_tree_l0(m: Map<int, u64>, m2: Map<int, u64>, root: int, g: int, p: int)
    requires
        tree(m, root),
        memlayout::dram_page(p),
        off_tables(m, root, p),
        forall|k: int| root_idx(k) ==> #[trigger] l1(m2, root, k) == l1(m, root, k),
        forall|k: int|
            group_idx(k) ==> #[trigger] l0(m2, root, k) == if k == g {
                p
            } else {
                l0(m, root, k)
            },
    ensures
        tree(m2, root),
{
    reveal(tree);
}

pub proof fn lemma_tree_same(m: Map<int, u64>, m2: Map<int, u64>, root: int)
    requires
        tree(m, root),
        forall|k: int| root_idx(k) ==> #[trigger] l1(m2, root, k) == l1(m, root, k),
        forall|g: int| group_idx(g) ==> #[trigger] l0(m2, root, g) == l0(m, root, g),
    ensures
        tree(m2, root),
{
    reveal(tree);
}

/// What the entry `i` of the table at `t` is once the page at `p` has been
/// zeroed and the entry `k` of the table at `q` set to `e`.
pub proof fn lemma_linked_ent(m: Map<int, u64>, p: int, q: int, k: int, e: u64, t: int, i: int)
    requires
        memlayout::dram_page(p),
        memlayout::dram_page(q),
        memlayout::dram_page(t),
        p != q,
        root_idx(i),
        root_idx(k),
    ensures
        ent(physmem::page_filled(m, p, 0).insert(q + 8 * k, e), t, i) == if t == q && i == k {
            e
        } else if t == p {
            0
        } else {
            ent(m, t, i)
        },
{
}

pub proof fn lemma_add_l1(m: Map<int, u64>, root: int, i: int, p: u64, m2: Map<int, u64>)
    requires
        tree(m, root),
        root_idx(i),
        l1(m, root, i) < 0,
        memlayout::dram_page(p as int),
        off_tables(m, root, p as int),
        m2 == physmem::page_filled(m, p as int, 0).insert(root + 8 * i, table_pte(p)),
    ensures
        tree(m2, root),
        forall|k: int|
            root_idx(k) ==> #[trigger] l1(m2, root, k) == if k == i {
                p as int
            } else {
                l1(m, root, k)
            },
        forall|g: int| group_idx(g) ==> #[trigger] l0(m2, root, g) == l0(m, root, g),
        forall|vp: int| page_idx(vp) ==> #[trigger] leaf(m2, root, vp) == leaf(m, root, vp),
{
    lemma_table_pte(p);
    lemma_tree(m, root, i, 0);
    assert forall|k: int| root_idx(k) implies #[trigger] l1(m2, root, k) == if k == i {
        p as int
    } else {
        l1(m, root, k)
    } by {
        lemma_l1(m2, root, k);
        lemma_l1(m, root, k);
        lemma_linked_ent(m, p as int, root, i, table_pte(p), root, k);
    }
    assert forall|g: int| group_idx(g) implies #[trigger] l0(m2, root, g) == l0(m, root, g) by {
        let t = l1(m, root, g / 512);
        assert(root_idx(g / 512));
        lemma_l0(m2, root, g);
        lemma_l0(m, root, g);
        lemma_tree(m, root, g / 512, g);
        if g / 512 == i {
            lemma_linked_ent(m, p as int, root, i, table_pte(p), p as int, g % 512);
        } else if t >= 0 {
            lemma_linked_ent(m, p as int, root, i, table_pte(p), t, g % 512);
        }
    }
    assert forall|vp: int| page_idx(vp) implies #[trigger] leaf(m2, root, vp) == leaf(m, root, vp) by {
        let t = l0(m, root, vp / 512);
        assert(group_idx(vp / 512));
        lemma_leaf(m2, root, vp);
        lemma_leaf(m, root, vp);
        lemma_tree(m, root, i, vp / 512);
        if t >= 0 {
            lemma_linked_ent(m, p as int, root, i, table_pte(p), t, vp % 512);
        }
    }
    lemma_tree_l1(m, m2, root, i, p as int);
}

#[verifier::rlimit(60)]
pub proof fn lemma_add_l0(m: Map<int, u64>, root: int, g: int, p: u64, m2: Map<int, u64>)
    requires
        tree(m, root),
        group_idx(g),
        l1(m, root, g / 512) >= 0,
        l0(m, root, g) < 0,
        memlayout::dram_page(p as int),
        off_tables(m, root, p as int),
        m2 == physmem::page_filled(m, p as int, 0).insert(
            l1(m, root, g / 512) + 8 * (g % 512),
            table_pte(p),
        ),
    ensures
        tree(m2, root),
        forall|k: int| root_idx(k) ==> #[trigger] l1(m2, root, k) == l1(m, root, k),
        forall|k: int|
            group_idx(k) ==> #[trigger] l0(m2, root, k) == if k == g {
                p as int
            } else {
                l0(m, root, k)
            },
        forall|vp: int| page_idx(vp) ==> #[trigger] leaf(m2, root, vp) == leaf(m, root, vp),
{
    lemma_table_pte(p);
    let t1 = l1(m, root, g / 512);
    assert(root_idx(g / 512));
    lemma_tree(m, root, g / 512, g);
    assert forall|k: int| root_idx(k) implies #[trigger] l1(m2, root, k) == l1(m, root, k) by {
        lemma_l1(m2, root, k);
        lemma_l1(m, root, k);
        lemma_linked_ent(m, p as int, t1, g % 512, table_pte(p), root, k);
    }
    assert forall|k: int| group_idx(k) implies #[trigger] l0(m2, root, k) == if k == g {
        p as int
    } else {
        l0(m, root, k)
    } by {
        let t = l1(m, root, k / 512);
        assert(root_idx(k / 512));
        lemma_l0(m2, root, k);
        lemma_l0(m, root, k);
        lemma_tree(m, root, k / 512, k);
        if k / 512 != g / 512 && t >= 0 {
            lemma_tree_distinct(m, root, k / 512, g / 512);
        }
        if k == g {
            lemma_linked_ent(m, p as int, t1, g % 512, table_pte(p), t, k % 512);
        } else if t >= 0 {
            lemma_linked_ent(m, p as int, t1, g % 512, table_pte(p), t, k % 512);
        }
    }
    assert forall|vp: int| page_idx(vp) implies #[trigger] leaf(m2, root, vp) == leaf(m, root, vp) by {
        let t = l0(m, root, vp / 512);
        assert(group_idx(vp / 512));
        lemma_leaf(m2, root, vp);
        lemma_leaf(m, root, vp);
        lemma_tree(m, root, g / 512, vp / 512);
        if vp / 512 == g {
            lemma_linked_ent(m, p as int, t1, g % 512, table_pte(p), p as int, vp % 512);
        } else if t >= 0 {
            lemma_linked_ent(m, p as int, t1, g % 512, table_pte(p), t, vp % 512);
        }
    }
    lemma_tree_l0(m, m2, root, g, p as int);
}

/// Writing one word of a table leaves every other entry of every other table.
proof fn lemma_other_entry(m: Map<int, u64>, t0: int, i0: int, e: u64, t: int, i: int)
    requires
        t0 % 4096 == 0,
        t % 4096 == 0,
        0 <= i0 < 512,
        0 <= i < 512,
        t != t0 || i != i0,
    ensures
        ent(m.insert(t0 + 8 * i0, e), t, i) == ent(m, t, i),
{
}

pub proof fn lemma_set_leaf(m: Map<int, u64>, root: int, vp: int, e: u64, m2: Map<int, u64>)
    requires
        tree(m, root),
        page_idx(vp),
        l0(m, root, vp / 512) >= 0,
        m2 == m.insert(l0(m, root, vp / 512) + 8 * (vp % 512), e),
    ensures
        tree(m2, root),
        forall|k: int| root_idx(k) ==> #[trigger] l1(m2, root, k) == l1(m, root, k),
        forall|g: int| group_idx(g) ==> #[trigger] l0(m2, root, g) == l0(m, root, g),
        forall|q: int|
            page_idx(q) ==> #[trigger] leaf(m2, root, q) == if q == vp {
                e
            } else {
                leaf(m, root, q)
            },
{
    let t0 = l0(m, root, vp / 512);
    assert(group_idx(vp / 512));
    lemma_tree(m, root, 0, vp / 512);
    assert forall|k: int| root_idx(k) implies #[trigger] l1(m2, root, k) == l1(m, root, k) by {
        lemma_l1(m2, root, k);
        lemma_l1(m, root, k);
        lemma_other_entry(m, t0, vp % 512, e, root, k);
    }
    assert forall|g: int| group_idx(g) implies #[trigger] l0(m2, root, g) == l0(m, root, g) by {
        let t = l1(m, root, g / 512);
        assert(root_idx(g / 512));
        lemma_l0(m2, root, g);
        lemma_l0(m, root, g);
        lemma_tree(m, root, g / 512, vp / 512);
        if t >= 0 {
            lemma_other_entry(m, t0, vp % 512, e, t, g % 512);
        }
    }
    assert forall|q: int| page_idx(q) implies #[trigger] leaf(m2, root, q) == if q == vp {
        e
    } else {
        leaf(m, root, q)
    } by {
        lemma_set_leaf_at(m, root, vp, e, m2, q);
    }
    lemma_tree_same(m, m2, root);
}

proof fn lemma_set_leaf_at(
    m: Map<int, u64>,
    root: int,
    vp: int,
    e: u64,
    m2: Map<int, u64>,
    q: int,
)
    requires
        tree(m, root),
        page_idx(vp),
        page_idx(q),
        l0(m, root, vp / 512) >= 0,
        m2 == m.insert(l0(m, root, vp / 512) + 8 * (vp % 512), e),
        l0(m2, root, q / 512) == l0(m, root, q / 512),
    ensures
        leaf(m2, root, q) == if q == vp {
            e
        } else {
            leaf(m, root, q)
        },
{
    let t0 = l0(m, root, vp / 512);
    let t = l0(m, root, q / 512);
    assert(group_idx(vp / 512));
    assert(group_idx(q / 512));
    lemma_leaf(m2, root, q);
    lemma_leaf(m, root, q);
    lemma_tree(m, root, 0, vp / 512);
    lemma_tree(m, root, 0, q / 512);
    if q / 512 != vp / 512 && t >= 0 {
        lemma_tree_distinct0(m, root, q / 512, vp / 512);
    }
    if q != vp && t >= 0 {
        lemma_other_entry(m, t0, vp % 512, e, t, q % 512);
    }
}

/// A change of memory that leaves every table of `root` alone leaves the
/// tree, and so every translation, alone.
#[verifier::rlimit(60)]
pub proof fn lemma_frame(m: Map<int, u64>, m2: Map<int, u64>, root: int)
    requires
        tree(m, root),
        forall|a: int| !off_tables(m, root, page_of(a)) ==> #[trigger] m2[a] == m[a],
    ensures
        tree(m2, root),
        same_tree(m, m2, root),
        forall|i: int| root_idx(i) ==> #[trigger] ent(m2, root, i) == ent(m, root, i),
        forall|p: int| #[trigger] off_tables(m2, root, p) <==> off_tables(m, root, p),
{
    lemma_tree(m, root, 0, 0);
    assert forall|i: int| root_idx(i) implies #[trigger] ent(m2, root, i) == ent(m, root, i) by {
        lemma_page_of(root, 8 * i);
    }
    assert forall|i: int| root_idx(i) implies #[trigger] l1(m2, root, i) == l1(m, root, i) by {
        lemma_l1(m2, root, i);
        lemma_l1(m, root, i);
        assert(ent(m2, root, i) == ent(m, root, i));
    }
    assert forall|g: int| group_idx(g) implies #[trigger] l0(m2, root, g) == l0(m, root, g) by {
        lemma_l0(m2, root, g);
        lemma_l0(m, root, g);
        let t = l1(m, root, g / 512);
        assert(root_idx(g / 512));
        if t >= 0 {
            lemma_tree(m, root, g / 512, 0);
            lemma_page_of(t, 8 * (g % 512));
            assert(ent(m2, t, g % 512) == ent(m, t, g % 512));
        }
    }
    assert forall|vp: int| page_idx(vp) implies #[trigger] leaf(m2, root, vp) == leaf(m, root, vp) by {
        lemma_leaf(m2, root, vp);
        lemma_leaf(m, root, vp);
        let t = l0(m, root, vp / 512);
        assert(group_idx(vp / 512));
        if t >= 0 {
            lemma_tree(m, root, 0, vp / 512);
            lemma_page_of(t, 8 * (vp % 512));
            assert(ent(m2, t, vp % 512) == ent(m, t, vp % 512));
        }
    }
    assert forall|p: int| #[trigger] off_tables(m2, root, p) <==> off_tables(m, root, p) by {
        if off_tables(m, root, p) {
            lemma_off_tables(m, m2, root, p);
        }
        if off_tables(m2, root, p) {
            lemma_off_tables(m2, m, root, p);
        }
    }
    lemma_tree_same(m, m2, root);
}

pub proof fn lemma_off_tables(m: Map<int, u64>, m2: Map<int, u64>, root: int, p: int)
    requires
        off_tables(m, root, p),
        forall|i: int| root_idx(i) ==> #[trigger] l1(m2, root, i) == l1(m, root, i),
        forall|g: int| group_idx(g) ==> #[trigger] l0(m2, root, g) == l0(m, root, g),
    ensures
        off_tables(m2, root, p),
{
}

} // verus!
