//! Physical page allocator.
//!
//! Manages all of DRAM above the kernel image + heap region as a free list
//! of 4 KiB pages. The list nodes live inside the free pages themselves (the
//! first word of a free page holds the address of the next one), so the
//! allocator needs no metadata storage of its own.
use vstd::prelude::*;

use crate::memlayout;
use crate::memlayout::{KernelImage, HEAP_SIZE, PAGE_SIZE, PHYS_TOP};
use crate::physmem;
use crate::physmem::Memory;
use crate::sv39;

verus! {

/// Every byte of a page that goes back to the free list is set to 0x5a, to
/// make a use after free show.
pub const POISON: u64 = 0x5a5a_5a5a_5a5a_5a5a;

/// The free list.
pub struct FreeList {
    /// First free page, or 0.
    head: u64,
    /// Length of the list.
    free_pages: u64,
    /// Pages below this address are not the allocator's.
    start: u64,
    /// The free pages, head first.
    list: Ghost<Seq<int>>,
}

/// May the allocator that starts at `start` hold the page at `pa`?
pub open spec fn managed(start: int, pa: int) -> bool {
    memlayout::dram_page(pa) && start <= pa
}

/// Does the page at `pa` share a byte with the reserved range?
pub open spec fn overlaps(reserved: Option<(u64, u64)>, pa: int) -> bool {
    match reserved {
        Some((lo, hi)) => pa < hi && lo < pa + PAGE_SIZE,
        None => false,
    }
}

/// The free list after every unreserved page of `[start, end)` was handed
/// over in ascending order: the last one in is the first one out.
pub open spec fn seeded(start: int, end: int, reserved: Option<(u64, u64)>) -> Seq<int>
    decreases end - start,
{
    let page = end - PAGE_SIZE;
    if page < start {
        Seq::empty()
    } else if overlaps(reserved, page) {
        seeded(start, page, reserved)
    } else {
        seq![page] + seeded(start, page, reserved)
    }
}

/// The first word of the `i`-th page of the list points at the next one.
pub open spec fn linked(m: Map<int, u64>, pages: Seq<int>, i: int) -> bool {
    m[pages[i]] == if i + 1 < pages.len() {
        pages[i + 1]
    } else {
        0
    }
}

/// `x` rounded up to a page boundary.
pub open spec fn page_up(x: int) -> int {
    (x + 4095) / 4096 * 4096
}

/// The seeded list holds exactly the unreserved pages of the range, each of
/// them once.
pub proof fn lemma_seeded(start: int, end: int, reserved: Option<(u64, u64)>)
    requires
        start % 4096 == 0,
        end % 4096 == 0,
    ensures
        forall|p: int| #[trigger]
            seeded(start, end, reserved).contains(p) <==> start <= p && p + PAGE_SIZE <= end && p
                % 4096 == 0 && !overlaps(reserved, p),
        seeded(start, end, reserved).no_duplicates(),
    decreases end - start,
{
    let page = end - PAGE_SIZE;
    if page >= start {
        lemma_seeded(start, page, reserved);
        let rest = seeded(start, page, reserved);
        let all = seeded(start, end, reserved);
        if !overlaps(reserved, page) {
            assert(all[0] == page);
            assert forall|p: int| #[trigger]
                all.contains(p) <==> start <= p && p + PAGE_SIZE <= end && p % 4096 == 0
                    && !overlaps(reserved, p) by {
                if rest.contains(p) {
                    let i = rest.index_of(p);
                    assert(all[i + 1] == p);
                }
                if all.contains(p) && p != page {
                    let i = all.index_of(p);
                    assert(rest[i - 1] == p);
                }
            }
            assert forall|i: int, j: int|
                0 <= i < all.len() && 0 <= j < all.len() && i != j implies all[i] != all[j] by {
                if i > 0 {
                    assert(rest.contains(rest[i - 1]));
                }
                if j > 0 {
                    assert(rest.contains(rest[j - 1]));
                }
            }
        }
    }
}

impl FreeList {
    /// The free pages, in the order in which they will be handed out.
    pub closed spec fn pages(self) -> Seq<int> {
        self.list@
    }

    /// The lowest address the allocator may manage.
    pub closed spec fn start(self) -> int {
        self.start as int
    }

    /// The list is threaded through the memory `m`: it starts at `head`, each
    /// free page's first word points at the next one, no page is on it twice,
    /// every page on it is the allocator's, and the count is its length.
    pub closed spec fn wf(self, m: Map<int, u64>) -> bool {
        let pages = self.list@;
        &&& self.free_pages == pages.len()
        &&& self.head == if pages.len() == 0 {
            0
        } else {
            pages[0]
        }
        &&& pages.no_duplicates()
        &&& forall|i: int| 0 <= i < pages.len() ==> managed(self.start as int, #[trigger] pages[i])
        &&& forall|i: int| 0 <= i < pages.len() ==> #[trigger] linked(m, pages, i)
    }

    /// An allocator for the DRAM above `image` and the heap, with no page on
    /// its list yet.
    pub fn new(image: &KernelImage) -> (fl: FreeList)
        requires
            image.wf(),
        ensures
            forall|m: Map<int, u64>| #[trigger] fl.wf(m),
            fl.pages() == Seq::<int>::empty(),
            fl.start() == image.kernel_end + HEAP_SIZE,
    {
        FreeList {
            head: 0,
            free_pages: 0,
            start: memlayout::alloc_start(image),
            list: Ghost(Seq::empty()),
        }
    }
}

/// What a well-formed list says of its pages.
pub proof fn lemma_pages(fl: FreeList, m: Map<int, u64>)
    requires
        fl.wf(m),
    ensures
        fl.pages().no_duplicates(),
        fl.pages().len() <= u64::MAX,
        forall|p: int| #[trigger] fl.pages().contains(p) ==> managed(fl.start(), p),
{
}

/// A change of memory that leaves the first word of every free page alone
/// leaves the list alone.
pub proof fn lemma_frame(fl: FreeList, m1: Map<int, u64>, m2: Map<int, u64>)
    requires
        fl.wf(m1),
        forall|p: int| #[trigger] fl.pages().contains(p) ==> m2[p] == m1[p],
    ensures
        fl.wf(m2),
{
    assert forall|i: int| 0 <= i < fl.list@.len() implies #[trigger] linked(m2, fl.list@, i) by {
        assert(linked(m1, fl.list@, i));
        assert(fl.pages().contains(fl.list@[i]));
    }
}

/// A multiple of 8 behind a page boundary is one.
pub proof fn lemma_offset(p: int, k: int)
    requires
        p % 4096 == 0,
        k % 8 == 0,
    ensures
        (p + k) % 8 == 0,
{
    let n = p / 4096;
    let l = k / 8;
    assert(p == 4096 * n && k == 8 * l);
    assert((p + k) % 8 == 0) by (nonlinear_arith)
        requires
            p == 4096 * n,
            k == 8 * l,
    ;
}

/// Hand every page between the end of the kernel heap and the top of DRAM to
/// the free list, except for those that share a byte with `reserved` (a range
/// some other party still needs, such as the device tree). Called once at
/// boot.
pub fn init(fl: &mut FreeList, mem: &mut Memory, reserved: Option<(u64, u64)>)
    requires
        old(mem).wf(),
        old(fl).wf(old(mem)@),
        old(fl).pages() == Seq::<int>::empty(),
        memlayout::DRAM_BASE <= old(fl).start() <= PHYS_TOP,
    ensures
        final(mem).wf(),
        final(fl).wf(final(mem)@),
        final(fl).start() == old(fl).start(),
        final(fl).pages() == seeded(page_up(old(fl).start()), PHYS_TOP as int, reserved),
        forall|p: int| #[trigger]
            final(fl).pages().contains(p) <==> managed(old(fl).start(), p) && !overlaps(
                reserved,
                p,
            ),
        forall|a: int|
            a < old(fl).start() || PHYS_TOP <= a ==> #[trigger] final(mem)@[a] == old(mem)@[a],
        forall|a: int|
            !final(fl).pages().contains(sv39::page_of(a)) ==> #[trigger] final(mem)@[a] == old(
                mem,
            )@[a],
        forall|p: int, k: int|
            #![trigger final(fl).pages().contains(p), final(mem)@[p + k]]
            final(fl).pages().contains(p) && 8 <= k < 4096 && k % 8 == 0 ==> final(mem)@[p + k]
                == POISON,
{
    let first: u64 = (fl.start + (PAGE_SIZE - 1)) / PAGE_SIZE * PAGE_SIZE;
    let mut page: u64 = first;
    assert(first == page_up(fl.start()));
    while page + PAGE_SIZE <= PHYS_TOP
        invariant
            mem.wf(),
            fl.wf(mem@),
            fl.start() == old(fl).start(),
            memlayout::DRAM_BASE <= fl.start() <= first <= page <= PHYS_TOP,
            first == page_up(fl.start()),
            page % 4096 == 0,
            fl.pages() == seeded(first as int, page as int, reserved),
            forall|a: int|
                a < fl.start() || PHYS_TOP <= a ==> #[trigger] mem@[a] == old(mem)@[a],
            forall|a: int|
                !fl.pages().contains(sv39::page_of(a)) ==> #[trigger] mem@[a] == old(mem)@[a],
            forall|p: int, k: int|
                #![trigger fl.pages().contains(p), mem@[p + k]]
                fl.pages().contains(p) && 8 <= k < 4096 && k % 8 == 0 ==> mem@[p + k] == POISON,
        decreases PHYS_TOP - page,
    {
        let keep_off: bool = match reserved {
            Some((lo, hi)) => page < hi && lo < page + PAGE_SIZE,
            None => false,
        };
        if !keep_off {
            proof {
                lemma_seeded(first as int, page as int, reserved);
            }
            let ghost pages = fl.pages();
            let ghost m = mem@;
            free(fl, mem, page);
            proof {
                let p0 = page as int;
                let grown = fl.pages();
                assert(grown[0] == p0);
                assert forall|p: int| #[trigger] grown.contains(p) <==> pages.contains(p) || p
                    == p0 by {
                    if pages.contains(p) {
                        assert(grown[pages.index_of(p) + 1] == p);
                    }
                }
                assert forall|a: int| !grown.contains(sv39::page_of(a)) implies #[trigger] mem@[a]
                    == old(mem)@[a] by {
                    sv39::lemma_off_page(p0, a);
                    assert(m[a] == old(mem)@[a]);
                }
                lemma_pages(*fl, mem@);
                assert forall|p: int, k: int|
                    #![trigger grown.contains(p), mem@[p + k]]
                    grown.contains(p) && 8 <= k < 4096 && k % 8 == 0 implies mem@[p + k]
                    == POISON by {
                    if p != p0 {
                        sv39::lemma_page_of(p, k);
                        sv39::lemma_off_page(p0, p + k);
                        assert(m[p + k] == POISON);
                    } else {
                        lemma_offset(p0, k);
                    }
                }
            }
        }
        page = page + PAGE_SIZE;
    }
    proof {
        lemma_seeded(first as int, PHYS_TOP as int, reserved);
    }
}

/// What an allocation does: the first page of the list comes off it and is filled with
/// zeroes; or the list is empty, and nothing happens.
pub open spec fn allocated(
    fl1: FreeList,
    fl2: FreeList,
    m1: Map<int, u64>,
    m2: Map<int, u64>,
    page: Option<u64>,
) -> bool {
    &&& page is None <==> fl1.pages().len() == 0
    &&& match page {
        Some(pa) => {
            &&& pa == fl1.pages()[0]
            &&& fl2.pages() == fl1.pages().drop_first()
            &&& m2 == physmem::page_filled(m1, pa as int, 0)
            &&& managed(fl1.start(), pa as int)
            &&& fl1.pages().contains(pa as int)
            &&& !fl2.pages().contains(pa as int)
        },
        None => {
            &&& fl2 == fl1
            &&& m2 == m1
        },
    }
}

/// What giving a page back does: it is poisoned and stands first on the list.
pub open spec fn freed(
    fl1: FreeList,
    fl2: FreeList,
    m1: Map<int, u64>,
    m2: Map<int, u64>,
    pa: u64,
) -> bool {
    &&& fl2.pages() == seq![pa as int] + fl1.pages()
    &&& m2 == physmem::page_filled(m1, pa as int, POISON).insert(
        pa as int,
        if fl1.pages().len() == 0 {
            0
        } else {
            fl1.pages()[0] as u64
        },
    )
}

/// Allocate one zeroed 4 KiB page, returning its physical address (which is
/// also its kernel virtual address, since the kernel runs identity-mapped).
/// `None` when no page is left.
#[verifier::rlimit(60)]
pub fn alloc_page(fl: &mut FreeList, mem: &mut Memory) -> (page: Option<u64>)
    requires
        old(mem).wf(),
        old(fl).wf(old(mem)@),
    ensures
        final(mem).wf(),
        final(fl).wf(final(mem)@),
        final(fl).start() == old(fl).start(),
        allocated(*old(fl), *final(fl), old(mem)@, final(mem)@, page),
{
    let node: u64 = fl.head;
    if node == 0 {
        proof {
            if fl.list@.len() > 0 {
                assert(managed(fl.start as int, fl.list@[0]));
            }
        }
        return None;
    }
    let ghost pages = fl.list@;
    assert(managed(fl.start as int, pages[0]));
    assert(linked(mem@, pages, 0));
    fl.head = mem.read(node);
    fl.free_pages = fl.free_pages - 1;
    fl.list = Ghost(pages.drop_first());
    // Page tables and fresh user pages rely on the zeroes.
    mem.fill_page(node, 0);
    proof {
        let rest = pages.drop_first();
        assert forall|i: int| 0 <= i < rest.len() implies managed(
            fl.start as int,
            #[trigger] rest[i],
        ) by {
            assert(rest[i] == pages[i + 1]);
        }
        assert forall|i: int| 0 <= i < rest.len() implies #[trigger] linked(mem@, rest, i) by {
            assert(linked(old(mem)@, pages, i + 1));
            assert(pages[i + 1] != pages[0]);
            assert(managed(fl.start as int, pages[i + 1]));
        }
        assert(pages.contains(pages[0]));
        assert(!rest.contains(node as int)) by {
            if rest.contains(node as int) {
                let i = rest.index_of(node as int);
                assert(pages[i + 1] == pages[0]);
            }
        }
    }
    Some(node)
}

/// Return a page to the allocator: poison it and put it at the head of the
/// list. The page must be one the allocator manages and must not be free
/// already.
pub fn free(fl: &mut FreeList, mem: &mut Memory, pa: u64)
    requires
        old(mem).wf(),
        old(fl).wf(old(mem)@),
        managed(old(fl).start(), pa as int),
        !old(fl).pages().contains(pa as int),
    ensures
        final(mem).wf(),
        final(fl).wf(final(mem)@),
        final(fl).start() == old(fl).start(),
        freed(*old(fl), *final(fl), old(mem)@, final(mem)@, pa),
{
    proof {
        lemma_count(*fl, mem@);
    }
    mem.fill_page(pa, POISON);
    mem.write(pa, fl.head);
    fl.head = pa;
    fl.free_pages = fl.free_pages + 1;
    let ghost pages = fl.list@;
    fl.list = Ghost(seq![pa as int] + pages);
    proof {
        let all = fl.list@;
        assert forall|i: int| 1 <= i < all.len() implies #[trigger] all[i] != pa && managed(
            fl.start as int,
            all[i],
        ) by {
            assert(pages.contains(pages[i - 1]));
            assert(managed(fl.start as int, pages[i - 1]));
        }
        assert forall|i: int| 0 <= i < all.len() implies #[trigger] linked(mem@, all, i) by {
            if i > 0 {
                assert(linked(old(mem)@, pages, i - 1));
                assert(all[i] != pa);
            }
        }
    }
}

/// A well-formed list is shorter than DRAM has pages.
pub proof fn lemma_count(fl: FreeList, m: Map<int, u64>)
    requires
        fl.wf(m),
    ensures
        fl.pages().len() <= 0x8000,
{
    let pages = fl.list@;
    let nums = pages.map_values(|p: int| p / 4096);
    assert(nums.no_duplicates()) by {
        assert forall|i: int, j: int|
            0 <= i < nums.len() && 0 <= j < nums.len() && i != j implies nums[i] != nums[j] by {
            assert(managed(fl.start as int, pages[i]));
            assert(managed(fl.start as int, pages[j]));
            assert(pages[i] != pages[j]);
        }
    }
    nums.unique_seq_to_set();
    let all = vstd::set_lib::set_int_range(0x8_0000, 0x8_8000);
    vstd::set_lib::lemma_int_range(0x8_0000, 0x8_8000);
    assert(nums.to_set().subset_of(all)) by {
        assert forall|n: int| nums.to_set().contains(n) implies all.contains(n) by {
            let i = nums.index_of(n);
            assert(managed(fl.start as int, pages[i]));
        }
    }
    vstd::set_lib::lemma_len_subset(nums.to_set(), all);
}

/// Number of free pages currently available.
pub fn free_pages(fl: &FreeList, mem: &Memory) -> (n: u64)
    requires
        fl.wf(mem@),
    ensures
        n == fl.pages().len(),
{
    fl.free_pages
}

/// An allocation succeeds as long as a page is left. The page it gives was free, is not
/// free any more, holds zeroes only, and no other page or word has changed.
pub proof fn lemma_allocated(
    fl1: FreeList,
    fl2: FreeList,
    m1: Map<int, u64>,
    m2: Map<int, u64>,
    page: Option<u64>,
    a: int,
)
    requires
        fl1.wf(m1),
        allocated(fl1, fl2, m1, m2, page),
    ensures
        page is Some <==> fl1.pages().len() > 0,
        page is Some ==> {
            &&& page->0 % 4096 == 0
            &&& 0x8000_0000 <= page->0 <= 0x87ff_f000
            &&& fl2.pages().len() + 1 == fl1.pages().len()
            &&& forall|p: int| #[trigger]
                fl1.pages().contains(p) <==> fl2.pages().contains(p) || p == page->0
            &&& !fl2.pages().contains(page->0 as int)
            &&& page->0 <= a < page->0 + 4096 && a % 8 == 0 ==> m2[a] == 0
            &&& !(page->0 <= a < page->0 + 4096) ==> m2[a] == m1[a]
        },
        page is None ==> m2[a] == m1[a] && fl2.pages() == fl1.pages(),
{
    if let Some(pa) = page {
        lemma_pages(fl1, m1);
        let pages = fl1.pages();
        assert forall|p: int| #[trigger] pages.contains(p) implies fl2.pages().contains(p) || p
            == pa by {
            let k = pages.index_of(p);
            if k > 0 {
                assert(fl2.pages()[k - 1] == p);
            }
        }
        assert forall|p: int| #[trigger] fl2.pages().contains(p) implies pages.contains(p) by {
            let k = fl2.pages().index_of(p);
            assert(pages[k + 1] == p);
        }
    }
}

/// A page that is given back is free, no other page is, and what it held is gone: every
/// byte behind its first word is 0x5a. No other memory changes.
pub proof fn lemma_freed(
    fl1: FreeList,
    fl2: FreeList,
    m1: Map<int, u64>,
    m2: Map<int, u64>,
    pa: u64,
    a: int,
)
    requires
        managed(fl1.start(), pa as int),
        freed(fl1, fl2, m1, m2, pa),
    ensures
        fl2.pages().len() == fl1.pages().len() + 1,
        forall|p: int| #[trigger] fl2.pages().contains(p) <==> fl1.pages().contains(p) || p == pa,
        pa + 8 <= a < pa + 4096 && a % 8 == 0 ==> m2[a] == 0x5a5a_5a5a_5a5a_5a5a,
        !(pa <= a < pa + 4096) ==> m2[a] == m1[a],
{
    let all = fl2.pages();
    assert(all[0] == pa);
    assert forall|p: int| #[trigger] all.contains(p) implies fl1.pages().contains(p) || p == pa by {
        let k = all.index_of(p);
        if k > 0 {
            assert(fl1.pages()[k - 1] == p);
        }
    }
    assert forall|p: int| #[trigger] fl1.pages().contains(p) implies all.contains(p) by {
        let k = fl1.pages().index_of(p);
        assert(all[k + 1] == p);
    }
}

/// A page that was given back is the next one to be handed out, and no other page is lost
/// or gained on the way.
pub proof fn lemma_free_alloc(
    fl1: FreeList,
    fl2: FreeList,
    fl3: FreeList,
    m1: Map<int, u64>,
    m2: Map<int, u64>,
    m3: Map<int, u64>,
    pa: u64,
    page: Option<u64>,
)
    requires
        freed(fl1, fl2, m1, m2, pa),
        allocated(fl2, fl3, m2, m3, page),
    ensures
        page == Some(pa),
        fl3.pages() == fl1.pages(),
{
    assert(fl2.pages().drop_first() =~= fl1.pages());
}

} // verus!
