//! Kernel heap: a first-fit, address-ordered free-list allocator.
//!
//! The heap owns the fixed region right after the kernel image. Free blocks
//! carry an intrusive header {size, next} and are kept sorted by address so
//! freeing can coalesce with both neighbours, keeping fragmentation bounded.
//!
//! Each live allocation is preceded by a 16-byte header recording the block
//! it was carved from, so `dealloc_inner` returns exactly what `alloc_inner`
//! took, including any alignment padding or absorbed slack.
use vstd::arithmetic::power2;
use vstd::prelude::*;

use crate::memlayout;
use crate::memlayout::{KernelImage, DRAM_BASE, HEAP_SIZE, PHYS_TOP};
use crate::physmem;
use crate::physmem::Memory;

verus! {

/// Minimum granule: every block size and address is a multiple of this.
pub const ALIGN: u64 = 16;

/// The smallest chunk worth keeping on the free list.
pub const MIN_BLOCK: u64 = 32;

/// Bytes of the header in front of every allocation.
pub const HEADER: u64 = 16;

/// The largest size a layout may have once rounded up to its alignment.
pub const LAYOUT_MAX: u64 = 0x7fff_ffff_ffff_ffff;

// --- The model ---------------------------------------------------------------

/// The least multiple of `a` that is not below `x`.
#[verifier::opaque]
pub open spec fn up(x: int, a: int) -> int {
    (x + a - 1) - (x + a - 1) % a
}

/// Payload bytes that a request for `size` bytes takes.
pub open spec fn need_of(size: int) -> int {
    up(if size < 1 {
        1
    } else {
        size
    }, 16)
}

/// The alignment a request for `align` gets.
pub open spec fn align_of(align: int) -> int {
    if align < 16 {
        16
    } else {
        align
    }
}

/// The address of the payload when a request is carved from block `b`.
pub open spec fn user_at(b: (int, int), align: int) -> int {
    up(b.0 + 16, align)
}

/// Can block `b` hold the header and `need` bytes at the alignment?
pub open spec fn fits(b: (int, int), need: int, align: int) -> bool {
    user_at(b, align) + need <= b.0 + b.1
}

/// The chunk `[start, end)` that the request takes out of block `b`. A
/// remainder too small to keep is absorbed.
pub open spec fn taken(b: (int, int), need: int, align: int) -> (int, int) {
    let front = user_at(b, align) - 16 - b.0;
    let user_end = user_at(b, align) + need;
    let end = b.0 + b.1;
    (
        if front >= 32 {
            b.0 + front
        } else {
            b.0
        },
        if end - user_end >= 32 {
            user_end
        } else {
            end
        },
    )
}

/// What stays free of block `b`: a front piece, a back piece, both or none.
pub open spec fn pieces(b: (int, int), need: int, align: int) -> Seq<(int, int)> {
    let t = taken(b, need, align);
    let front = if t.0 > b.0 {
        seq![(b.0, t.0 - b.0)]
    } else {
        Seq::empty()
    };
    let back = if t.1 < b.0 + b.1 {
        seq![(t.1, b.0 + b.1 - t.1)]
    } else {
        Seq::empty()
    };
    front + back
}

/// The free blocks once the request is carved from the `i`-th of them.
pub open spec fn carved(blocks: Seq<(int, int)>, i: int, need: int, align: int) -> Seq<
    (int, int),
> {
    blocks.take(i) + pieces(blocks[i], need, align) + blocks.skip(i + 1)
}

/// The first block from the `i`-th on that fits; the number of blocks if none
/// does.
pub open spec fn first_fit(blocks: Seq<(int, int)>, need: int, align: int, i: int) -> int
    decreases blocks.len() - i,
{
    if i >= blocks.len() {
        blocks.len() as int
    } else if fits(blocks[i], need, align) {
        i
    } else {
        first_fit(blocks, need, align, i + 1)
    }
}

/// Number of blocks that start below `start`, when they are sorted.
pub open spec fn position(blocks: Seq<(int, int)>, start: int, i: int) -> int
    decreases blocks.len() - i,
{
    if i >= blocks.len() {
        blocks.len() as int
    } else if blocks[i].0 >= start {
        i
    } else {
        position(blocks, start, i + 1)
    }
}

/// The free blocks once `[start, start + size)` is given back before the
/// `i`-th of them, merged with the neighbours it touches.
pub open spec fn merged(blocks: Seq<(int, int)>, i: int, start: int, size: int) -> Seq<(int, int)> {
    let left = i > 0 && blocks[i - 1].0 + blocks[i - 1].1 == start;
    let right = i < blocks.len() && start + size == blocks[i].0;
    let s = if left {
        blocks[i - 1].0
    } else {
        start
    };
    let e = if right {
        blocks[i].0 + blocks[i].1
    } else {
        start + size
    };
    let before = if left {
        blocks.take(i - 1)
    } else {
        blocks.take(i)
    };
    let after = if right {
        blocks.skip(i + 1)
    } else {
        blocks.skip(i)
    };
    before + seq![(s, e - s)] + after
}

/// The block `b` consists of whole granules.
#[verifier::opaque]
pub open spec fn granules(b: (int, int)) -> bool {
    &&& b.0 % 16 == 0
    &&& b.1 % 16 == 0
}

/// A block of the heap that starts at `lo`: granular, not too small, inside.
pub open spec fn block_ok(b: (int, int), lo: int) -> bool {
    &&& granules(b)
    &&& b.1 >= 32
    &&& lo <= b.0
    &&& b.0 + b.1 <= lo + HEAP_SIZE
}

/// A multiple of 16 is the address of a word, and so are its neighbours.
proof fn lemma_words(x: int)
    requires
        x % 16 == 0,
    ensures
        x % 8 == 0,
        (x + 8) % 8 == 0,
        (x - 8) % 8 == 0,
        (x - 16) % 8 == 0,
{
    let k = x / 16;
    assert(x == 16 * k);
    assert(x % 8 == 0 && (x + 8) % 8 == 0 && (x - 8) % 8 == 0 && (x - 16) % 8 == 0)
        by (nonlinear_arith)
        requires
            x == 16 * k,
    ;
}

/// Multiples of 16 add up to one, and differ by one.
proof fn lemma_sixteens(x: int, y: int)
    requires
        x % 16 == 0,
        y % 16 == 0,
    ensures
        (x + y) % 16 == 0,
        (x - y) % 16 == 0,
{
    let k = x / 16;
    let l = y / 16;
    assert(x == 16 * k);
    assert(y == 16 * l);
    assert((x + y) % 16 == 0 && (x - y) % 16 == 0) by (nonlinear_arith)
        requires
            x == 16 * k,
            y == 16 * l,
    ;
}

/// The header of a block consists of two words of DRAM.
proof fn lemma_header(b: (int, int), lo: int)
    requires
        block_ok(b, lo),
        DRAM_BASE <= lo,
        lo + HEAP_SIZE <= PHYS_TOP,
    ensures
        physmem::word_addr(b.0),
        physmem::word_addr(b.0 + 8),
{
    assert(b.0 % 8 == 0 && (b.0 + 8) % 8 == 0) by {
        reveal(granules);
        lemma_words(b.0);
    }
}

/// The blocks are sorted by address, and no two of them touch.
pub open spec fn layout(blocks: Seq<(int, int)>, lo: int) -> bool {
    &&& forall|i: int| 0 <= i < blocks.len() ==> block_ok(#[trigger] blocks[i], lo)
    &&& forall|i: int, j: int|
        #![trigger blocks[i], blocks[j]]
        0 <= i < j < blocks.len() ==> blocks[i].0 + blocks[i].1 < blocks[j].0
}

/// Bytes in the blocks.
pub open spec fn total(blocks: Seq<(int, int)>) -> int
    decreases blocks.len(),
{
    if blocks.len() == 0 {
        0
    } else {
        total(blocks.drop_last()) + blocks.last().1
    }
}

/// The address of the first block, or 0.
pub open spec fn first(blocks: Seq<(int, int)>) -> int {
    if blocks.len() == 0 {
        0
    } else {
        blocks[0].0
    }
}

/// Block `i` carries its header: its size and the address of the next one.
pub open spec fn node(m: Map<int, u64>, blocks: Seq<(int, int)>, i: int) -> bool {
    &&& m[blocks[i].0] == blocks[i].1
    &&& m[blocks[i].0 + 8] == if i + 1 < blocks.len() {
        blocks[i + 1].0
    } else {
        0
    }
}

/// Every block carries its header.
pub open spec fn chain(m: Map<int, u64>, blocks: Seq<(int, int)>) -> bool {
    forall|i: int| 0 <= i < blocks.len() ==> #[trigger] node(m, blocks, i)
}

/// Is the byte at `a` in a free block?
pub open spec fn in_free(blocks: Seq<(int, int)>, a: int) -> bool {
    exists|i: int|
        0 <= i < blocks.len() && (#[trigger] blocks[i]).0 <= a < blocks[i].0 + blocks[i].1
}

/// The kernel heap.
pub struct Heap {
    /// First free block, or 0.
    head: u64,
    /// Bytes in the free blocks.
    free_bytes: u64,
    /// First byte of the region.
    start: u64,
    /// The free blocks as (start, size), in ascending order.
    list: Ghost<Seq<(int, int)>>,
}

impl Heap {
    /// The free blocks as (start, size), in ascending order.
    pub closed spec fn blocks(self) -> Seq<(int, int)> {
        self.list@
    }

    /// First byte of the region.
    pub closed spec fn start(self) -> int {
        self.start as int
    }

    /// The free list is threaded through the memory `m`.
    pub closed spec fn wf(self, m: Map<int, u64>) -> bool {
        &&& DRAM_BASE <= self.start
        &&& self.start + HEAP_SIZE <= PHYS_TOP
        &&& self.start % 16 == 0
        &&& layout(self.list@, self.start as int)
        &&& chain(m, self.list@)
        &&& self.head == first(self.list@)
        &&& self.free_bytes == total(self.list@)
    }

    /// A heap behind `image` with no block on its list yet.
    #[verifier::spinoff_prover]
    pub fn new(image: &KernelImage) -> (heap: Heap)
        requires
            image.wf(),
        ensures
            forall|m: Map<int, u64>| #[trigger] heap.wf(m),
            heap.blocks() == Seq::<(int, int)>::empty(),
            heap.start() == image.kernel_end,
    {
        let heap: Heap = Heap {
            head: 0,
            free_bytes: 0,
            start: memlayout::heap_start(image),
            list: Ghost(Seq::empty()),
        };
        assert(heap.start % 16 == 0);
        assert(total(heap.list@) == 0);
        heap
    }
}

/// What a well-formed heap says of its blocks.
pub proof fn lemma_blocks(heap: Heap, m: Map<int, u64>)
    requires
        heap.wf(m),
    ensures
        layout(heap.blocks(), heap.start()),
        heap.start() % 16 == 0,
        DRAM_BASE <= heap.start(),
        heap.start() + HEAP_SIZE <= PHYS_TOP,
{
}

/// A change of memory outside the free blocks leaves the heap alone.
pub proof fn lemma_frame(heap: Heap, m1: Map<int, u64>, m2: Map<int, u64>)
    requires
        heap.wf(m1),
        forall|a: int| in_free(heap.blocks(), a) ==> #[trigger] m2[a] == m1[a],
    ensures
        heap.wf(m2),
{
    assert forall|i: int| 0 <= i < heap.list@.len() implies #[trigger] node(m2, heap.list@, i) by {
        assert(node(m1, heap.list@, i));
        let b = heap.list@[i];
        assert(block_ok(b, heap.start as int));
        assert(in_free(heap.list@, b.0));
        assert(in_free(heap.list@, b.0 + 8));
    }
}

/// Rounding up yields a multiple, less than one step above.
pub proof fn lemma_up(x: int, a: int)
    requires
        a > 0,
    ensures
        up(x, a) % a == 0,
        x <= up(x, a) < x + a,
{
    reveal(up);
    let y = x + a - 1;
    vstd::arithmetic::div_mod::lemma_fundamental_div_mod(y, a);
    assert(up(x, a) == a * (y / a));
    vstd::arithmetic::div_mod::lemma_mod_multiples_basic(y / a, a);
    assert(a * (y / a) == (y / a) * a) by (nonlinear_arith);
    vstd::arithmetic::div_mod::lemma_mod_bound(y, a);
}

/// A power of two that is at least 16 is a multiple of 16, and so is every
/// multiple of it.
pub proof fn lemma_granular(a: int, x: int)
    requires
        power2::is_pow2(a),
        a >= 16,
        x % a == 0,
    ensures
        x % 16 == 0,
{
    power2::is_pow2_equiv(a);
    let e = choose|e: nat| vstd::arithmetic::power::pow(2, e) == a;
    power2::lemma_pow2(e);
    power2::lemma2_to64();
    if e < 4 {
        power2::lemma_pow2_strictly_increases(e, 4);
    }
    power2::lemma_pow2_adds(4, (e - 4) as nat);
    let c = power2::pow2((e - 4) as nat) as int;
    assert(a == 16 * c);
    vstd::arithmetic::div_mod::lemma_fundamental_div_mod(x, a);
    let q = x / a;
    assert(x == 16 * (c * q)) by (nonlinear_arith)
        requires
            x == a * q,
            a == 16 * c,
    ;
}

/// `x` rounded up to a multiple of the power of two `align`.
fn align_up(x: u64, align: u64) -> (r: u64)
    requires
        power2::is_pow2(align as int),
        x + align - 1 <= u64::MAX,
    ensures
        r == up(x as int, align as int),
{
    proof {
        reveal(power2::is_pow2);
    }
    let y: u64 = x + (align - 1);
    let mask: u64 = align - 1;
    proof {
        power2::is_pow2_equiv(align as int);
        let e = choose|e: nat| vstd::arithmetic::power::pow(2, e) == align;
        power2::lemma_pow2(e);
        power2::lemma2_to64();
        if e >= 64 {
            if e > 64 {
                power2::lemma_pow2_strictly_increases(64, e);
            }
        }
        reveal(up);
        vstd::bits::lemma_u64_low_bits_mask_is_mod(y, e);
        assert(y & !mask == y - (y & mask)) by (bit_vector);
    }
    y & !mask
}

// --- Lemmas on the list ------------------------------------------------------

/// Totals add up.
pub proof fn lemma_total_add(a: Seq<(int, int)>, b: Seq<(int, int)>)
    ensures
        total(a + b) == total(a) + total(b),
    decreases b.len(),
{
    if b.len() == 0 {
        assert(a + b =~= a);
    } else {
        assert((a + b).drop_last() =~= a + b.drop_last());
        lemma_total_add(a, b.drop_last());
    }
}

/// The free bytes lie inside the region, below the end of the last block.
proof fn lemma_total_bound(blocks: Seq<(int, int)>, lo: int)
    requires
        layout(blocks, lo),
    ensures
        0 <= total(blocks) <= HEAP_SIZE,
        blocks.len() > 0 ==> total(blocks) <= blocks.last().0 + blocks.last().1 - lo,
    decreases blocks.len(),
{
    if blocks.len() > 0 {
        let rest = blocks.drop_last();
        assert(layout(rest, lo)) by {
            assert forall|i: int| 0 <= i < rest.len() implies block_ok(#[trigger] rest[i], lo) by {
                assert(rest[i] == blocks[i]);
            }
        }
        lemma_total_bound(rest, lo);
        assert(block_ok(blocks.last(), lo));
        if rest.len() > 0 {
            assert(rest.last() == blocks[blocks.len() - 2]);
        }
    }
}

/// The total once the blocks from `i` to `j` are replaced by `mid`.
proof fn lemma_total_splice(blocks: Seq<(int, int)>, i: int, j: int, mid: Seq<(int, int)>)
    requires
        0 <= i <= j <= blocks.len(),
    ensures
        total(blocks.take(i) + mid + blocks.skip(j)) == total(blocks) - total(
            blocks.subrange(i, j),
        ) + total(mid),
{
    lemma_total_add(blocks.take(i) + mid, blocks.skip(j));
    lemma_total_add(blocks.take(i), mid);
    assert(blocks =~= blocks.take(i) + blocks.subrange(i, j) + blocks.skip(j));
    lemma_total_add(blocks.take(i) + blocks.subrange(i, j), blocks.skip(j));
    lemma_total_add(blocks.take(i), blocks.subrange(i, j));
}

/// The totals of short sequences.
proof fn lemma_total_short(s: Seq<(int, int)>)
    requires
        s.len() <= 2,
    ensures
        s.len() == 0 ==> total(s) == 0,
        s.len() == 1 ==> total(s) == s[0].1,
        s.len() == 2 ==> total(s) == s[0].1 + s[1].1,
{
    reveal_with_fuel(total, 3);
}

/// The chain once the blocks from `i` to `j` are replaced by `mid`, the words
/// of the others left alone but for the link in front.
proof fn lemma_chain_splice(
    m: Map<int, u64>,
    m2: Map<int, u64>,
    blocks: Seq<(int, int)>,
    i: int,
    j: int,
    mid: Seq<(int, int)>,
)
    requires
        0 <= i <= j <= blocks.len(),
        chain(m, blocks),
        forall|k: int|
            0 <= k < i - 1 || j <= k < blocks.len() ==> m2[(#[trigger] blocks[k]).0]
                == m[blocks[k].0] && m2[blocks[k].0 + 8] == m[blocks[k].0 + 8],
        i > 0 ==> m2[blocks[i - 1].0] == m[blocks[i - 1].0] && m2[blocks[i - 1].0 + 8] == first(
            mid + blocks.skip(j),
        ),
        forall|k: int|
            0 <= k < mid.len() ==> m2[(#[trigger] mid[k]).0] == mid[k].1 && m2[mid[k].0 + 8] == if k
                + 1 < mid.len() {
                mid[k + 1].0
            } else {
                first(blocks.skip(j))
            },
    ensures
        chain(m2, blocks.take(i) + mid + blocks.skip(j)),
        first(blocks.take(i) + mid + blocks.skip(j)) == if i == 0 {
            first(mid + blocks.skip(j))
        } else {
            first(blocks)
        },
{
    let all = blocks.take(i) + mid + blocks.skip(j);
    let tail = mid + blocks.skip(j);
    assert(all.len() == i + mid.len() + blocks.len() - j);
    assert forall|k: int| 0 <= k < all.len() implies #[trigger] node(m2, all, k) by {
        if k < i - 1 {
            assert(node(m, blocks, k));
            assert(all[k] == blocks[k] && all[k + 1] == blocks[k + 1]);
        } else if k == i - 1 {
            assert(node(m, blocks, k));
            assert(all[k] == blocks[k]);
            if tail.len() > 0 {
                assert(all[k + 1] == tail[0]);
            }
        } else if k < i + mid.len() {
            assert(all[k] == mid[k - i]);
            if k + 1 < i + mid.len() {
                assert(all[k + 1] == mid[k + 1 - i]);
            } else if blocks.skip(j).len() > 0 {
                assert(all[k + 1] == blocks.skip(j)[0]);
            }
        } else {
            let q = k - i - mid.len() + j;
            assert(node(m, blocks, q));
            assert(all[k] == blocks[q]);
            if q + 1 < blocks.len() {
                assert(all[k + 1] == blocks[q + 1]);
            }
        }
    }
}

/// The layout once the blocks from `i` to `j` are replaced by `mid`, which
/// stays clear of the others.
#[verifier::rlimit(60)]
proof fn lemma_layout_splice(
    blocks: Seq<(int, int)>,
    lo: int,
    i: int,
    j: int,
    mid: Seq<(int, int)>,
)
    requires
        0 <= i <= j <= blocks.len(),
        layout(blocks, lo),
        layout(mid, lo),
        i > 0 && mid.len() > 0 ==> blocks[i - 1].0 + blocks[i - 1].1 < mid[0].0,
        j < blocks.len() && mid.len() > 0 ==> mid.last().0 + mid.last().1 < blocks[j].0,
    ensures
        layout(blocks.take(i) + mid + blocks.skip(j), lo),
{
    let all = blocks.take(i) + mid + blocks.skip(j);
    let n = mid.len() as int;
    assert forall|k: int| 0 <= k < all.len() implies #[trigger] all[k] == if k < i {
        blocks[k]
    } else if k < i + n {
        mid[k - i]
    } else {
        blocks[k - i - n + j]
    } by {}
    assert forall|k: int| 0 <= k < all.len() implies block_ok(#[trigger] all[k], lo) by {}
    assert forall|k: int, q: int|
        #![trigger all[k], all[q]]
        0 <= k < q < all.len() implies all[k].0 + all[k].1 < all[q].0 by {
        if k < i && i <= q < i + n {
            assert(blocks[k].0 + blocks[k].1 <= blocks[i - 1].0 + blocks[i - 1].1) by {
                if k < i - 1 {
                    assert(blocks[k].0 + blocks[k].1 < blocks[i - 1].0);
                    assert(block_ok(blocks[i - 1], lo));
                }
            }
            assert(mid[0].0 <= mid[q - i].0) by {
                if q > i {
                    assert(mid[0].0 + mid[0].1 < mid[q - i].0);
                    assert(block_ok(mid[0], lo));
                }
            }
        } else if i <= k < i + n && q >= i + n {
            let r = q - i - n + j;
            assert(mid[k - i].0 + mid[k - i].1 <= mid.last().0 + mid.last().1) by {
                if k - i < n - 1 {
                    assert(mid[k - i].0 + mid[k - i].1 < mid[n - 1].0);
                    assert(block_ok(mid[n - 1], lo));
                }
            }
            assert(blocks[j].0 <= blocks[r].0) by {
                if r > j {
                    assert(blocks[j].0 + blocks[j].1 < blocks[r].0);
                    assert(block_ok(blocks[j], lo));
                }
            }
        }
    }
}

/// What carving a request out of block `b` leaves and takes.
#[verifier::spinoff_prover]
#[verifier::rlimit(60)]
pub proof fn lemma_pieces(b: (int, int), lo: int, need: int, align: int)
    requires
        block_ok(b, lo),
        fits(b, need, align),
        power2::is_pow2(align),
        align >= 16,
        need % 16 == 0,
        need >= 16,
    ensures
        ({
            let t = taken(b, need, align);
            let user = user_at(b, align);
            &&& user % align == 0
            &&& user % 16 == 0
            &&& b.0 <= t.0 <= user - 16
            &&& user + need <= t.1 <= b.0 + b.1
            &&& granules((t.0, t.1 - t.0))
            &&& layout(pieces(b, need, align), lo)
            &&& pieces(b, need, align).len() <= 2
            &&& total(pieces(b, need, align)) == b.1 - (t.1 - t.0)
        }),
{
    let user = user_at(b, align);
    reveal(granules);
    lemma_up(b.0 + 16, align);
    lemma_granular(align, user);
    lemma_total_short(pieces(b, need, align));
}

// --- The allocator -----------------------------------------------------------

/// Seed the heap with its whole region as one free block.
#[verifier::spinoff_prover]
pub fn init(heap: &mut Heap, mem: &mut Memory)
    requires
        old(mem).wf(),
        old(heap).wf(old(mem)@),
        old(heap).blocks() == Seq::<(int, int)>::empty(),
    ensures
        final(mem).wf(),
        final(heap).wf(final(mem)@),
        final(heap).start() == old(heap).start(),
        final(heap).blocks() == seq![(old(heap).start(), HEAP_SIZE as int)],
        final(mem)@ == old(mem)@.insert(old(heap).start(), HEAP_SIZE).insert(
            old(heap).start() + 8,
            0,
        ),
{
    mem.write(heap.start, HEAP_SIZE);
    mem.write(heap.start + 8, 0);
    heap.head = heap.start;
    heap.free_bytes = HEAP_SIZE;
    let ghost all = seq![(heap.start as int, HEAP_SIZE as int)];
    heap.list = Ghost(all);
    proof {
        reveal(granules);
        lemma_total_short(heap.list@);
    }
}

/// Bytes currently free (not accounting for per-allocation headers).
pub fn free_bytes(heap: &Heap, mem: &Memory) -> (n: u64)
    requires
        heap.wf(mem@),
    ensures
        n == total(heap.blocks()),
{
    heap.free_bytes
}

/// The payload at `user` belongs to a live allocation: the header in front of
/// it names a chunk of the heap that holds it, and no byte of that chunk is
/// free.
pub open spec fn live(m: Map<int, u64>, blocks: Seq<(int, int)>, lo: int, user: int) -> bool {
    let start = m[user - 16] as int;
    let size = m[user - 8] as int;
    &&& block_ok((start, size), lo)
    &&& start + 16 <= user < start + size
    &&& user % 16 == 0
    &&& forall|i: int|
        #![trigger blocks[i]]
        0 <= i < blocks.len() ==> blocks[i].0 + blocks[i].1 <= start || start + size <= blocks[i].0
}

/// The state once a request has been carved from block `i`.
spec fn allocated(
    m: Map<int, u64>,
    m2: Map<int, u64>,
    blocks: Seq<(int, int)>,
    i: int,
    need: int,
    align: int,
) -> bool {
    let b = blocks[i];
    let t = taken(b, need, align);
    let user = user_at(b, align);
    let new = carved(blocks, i, need, align);
    &&& chain(m2, new)
    &&& m2[user - 16] == t.0
    &&& m2[user - 8] == t.1 - t.0
    &&& forall|a: int| !in_free(blocks, a) ==> #[trigger] m2[a] == m[a]
}

/// The chunk taken is clear of the blocks that stay free.
proof fn lemma_taken_clear(blocks: Seq<(int, int)>, lo: int, i: int, need: int, align: int)
    requires
        layout(blocks, lo),
        0 <= i < blocks.len(),
        fits(blocks[i], need, align),
        power2::is_pow2(align),
        align >= 16,
        need % 16 == 0,
        need >= 16,
    ensures
        ({
            let t = taken(blocks[i], need, align);
            let new = carved(blocks, i, need, align);
            forall|k: int|
                #![trigger new[k]]
                0 <= k < new.len() ==> new[k].0 + new[k].1 <= t.0 || t.1 <= new[k].0
        }),
{
    let b = blocks[i];
    let p = pieces(b, need, align);
    let t = taken(b, need, align);
    lemma_pieces(b, lo, need, align);
    let new = carved(blocks, i, need, align);
    assert forall|k: int|
        #![trigger new[k]]
        0 <= k < new.len() implies new[k].0 + new[k].1 <= t.0 || t.1 <= new[k].0 by {
        if k < i {
            assert(new[k] == blocks[k]);
        } else if k < i + p.len() {
            assert(new[k] == p[k - i]);
        } else {
            assert(new[k] == blocks[k - p.len() + 1]);
        }
    }
}

/// The words written for a request leave the list in order.
proof fn lemma_allocated(
    m: Map<int, u64>,
    m2: Map<int, u64>,
    blocks: Seq<(int, int)>,
    lo: int,
    i: int,
    need: int,
    align: int,
)
    requires
        layout(blocks, lo),
        chain(m, blocks),
        0 <= i < blocks.len(),
        fits(blocks[i], need, align),
        power2::is_pow2(align),
        align >= 16,
        need % 16 == 0,
        need >= 16,
        ({
            let b = blocks[i];
            let t = taken(b, need, align);
            let user = user_at(b, align);
            let p = pieces(b, need, align);
            let tail = blocks.skip(i + 1);
            &&& m2[user - 16] == t.0
            &&& m2[user - 8] == t.1 - t.0
            &&& forall|k: int|
                0 <= k < p.len() ==> m2[(#[trigger] p[k]).0] == p[k].1 && m2[p[k].0 + 8] == if k + 1
                    < p.len() {
                    p[k + 1].0
                } else {
                    first(tail)
                }
            &&& i > 0 ==> m2[blocks[i - 1].0 + 8] == first(p + tail)
            &&& forall|a: int|
                !(b.0 <= a < b.0 + b.1) && !(i > 0 && a == blocks[i - 1].0 + 8)
                    ==> #[trigger] m2[a] == m[a]
        }),
    ensures
        allocated(m, m2, blocks, i, need, align),
        layout(carved(blocks, i, need, align), lo),
        total(carved(blocks, i, need, align)) == total(blocks) - (taken(blocks[i], need, align).1
            - taken(blocks[i], need, align).0),
        first(carved(blocks, i, need, align)) == if i == 0 {
            first(pieces(blocks[0], need, align) + blocks.skip(1))
        } else {
            first(blocks)
        },
        live(m2, carved(blocks, i, need, align), lo, user_at(blocks[i], align)),
{
    let b = blocks[i];
    let p = pieces(b, need, align);
    let t = taken(b, need, align);
    let user = user_at(b, align);
    lemma_pieces(b, lo, need, align);
    assert forall|k: int|
        0 <= k < i - 1 || i + 1 <= k < blocks.len() implies m2[(#[trigger] blocks[k]).0]
        == m[blocks[k].0] && m2[blocks[k].0 + 8] == m[blocks[k].0 + 8] by {
        assert(block_ok(blocks[k], lo));
        if i > 0 {
            assert(block_ok(blocks[i - 1], lo));
        }
    }
    if i > 0 {
        assert(block_ok(blocks[i - 1], lo));
        assert(m2[blocks[i - 1].0] == m[blocks[i - 1].0]);
    }
    lemma_chain_splice(m, m2, blocks, i, i + 1, p);
    lemma_layout_splice(blocks, lo, i, i + 1, p);
    lemma_total_splice(blocks, i, i + 1, p);
    lemma_total_short(blocks.subrange(i, i + 1));
    assert forall|a: int| !in_free(blocks, a) implies #[trigger] m2[a] == m[a] by {
        assert(!(blocks[i].0 <= a < blocks[i].0 + blocks[i].1));
        if i > 0 {
            assert(!(blocks[i - 1].0 <= a < blocks[i - 1].0 + blocks[i - 1].1));
        }
    }
    lemma_taken_clear(blocks, lo, i, need, align);
}

/// Carve a request out of the block at `cur`, the `i`-th on the list, and
/// rewire the list around it.
#[verifier::spinoff_prover]
#[verifier::rlimit(60)]
fn carve(
    heap: &mut Heap,
    mem: &mut Memory,
    prev: u64,
    cur: u64,
    block_end: u64,
    user_start: u64,
    need: u64,
    Ghost(i): Ghost<int>,
    Ghost(al): Ghost<int>,
)
    requires
        old(mem).wf(),
        old(heap).wf(old(mem)@),
        0 <= i < old(heap).list@.len(),
        cur == old(heap).list@[i].0,
        prev == if i > 0 {
            old(heap).list@[i - 1].0
        } else {
            0
        },
        block_end == cur + old(heap).list@[i].1,
        user_start == user_at(old(heap).list@[i], al),
        fits(old(heap).list@[i], need as int, al),
        power2::is_pow2(al),
        al >= 16,
        need % 16 == 0,
        need >= 16,
    ensures
        final(mem).wf(),
        final(heap).wf(final(mem)@),
        final(heap).start == old(heap).start,
        final(heap).list@ == carved(old(heap).list@, i, need as int, al),
        allocated(old(mem)@, final(mem)@, old(heap).list@, i, need as int, al),
        live(final(mem)@, final(heap).list@, old(heap).start as int, user_start as int),
{
    let ghost blocks = heap.list@;
    let ghost m0 = mem@;
    let ghost lo = heap.start as int;
    proof {
        assert(block_ok(blocks[i], lo));
        assert(node(m0, blocks, i));
        lemma_header(blocks[i], lo);
        lemma_pieces(blocks[i], lo, need as int, al);
    }
    let user_end: u64 = user_start + need;
    let next: u64 = mem.read(cur + 8);
    // Front remainder: keep on the list if big enough, otherwise
    // absorb it into the allocation (the header records the truth).
    let front_gap: u64 = user_start - HEADER - cur;
    let keep_front: bool = front_gap >= MIN_BLOCK;
    let alloc_start: u64 = if keep_front {
        cur + front_gap
    } else {
        cur
    };
    // Back remainder, same policy.
    let back_gap: u64 = block_end - user_end;
    let keep_back: bool = back_gap >= MIN_BLOCK;
    let alloc_end: u64 = if keep_back {
        user_end
    } else {
        block_end
    };
    // Rewire the free list around the carved-out region.
    let mut replacement: u64 = next;
    if keep_back {
        mem.write(alloc_end, block_end - alloc_end);
        mem.write(alloc_end + 8, replacement);
        replacement = alloc_end;
    }
    if keep_front {
        mem.write(cur, front_gap);
        mem.write(cur + 8, replacement);
        replacement = cur;
    }
    if prev == 0 {
        heap.head = replacement;
    } else {
        proof {
            lemma_header(blocks[i - 1], lo);
        }
        mem.write(prev + 8, replacement);
    }
    proof {
        lemma_total_bound(blocks, lo);
        lemma_total_take(blocks, lo, i);
    }
    heap.free_bytes = heap.free_bytes - (alloc_end - alloc_start);
    mem.write(user_start - HEADER, alloc_start);
    mem.write(user_start - HEADER + 8, alloc_end - alloc_start);
    proof {
        let b = blocks[i];
        let p = pieces(b, need as int, al);
        let tail = blocks.skip(i + 1);
        assert(next == first(tail));
        if i > 0 {
            assert(block_ok(blocks[i - 1], lo));
            assert(blocks[i - 1].0 + blocks[i - 1].1 < blocks[i].0);
        }
        assert(taken(b, need as int, al) == (alloc_start as int, alloc_end as int));
        assert(replacement == first(p + tail));
        lemma_allocated(m0, mem@, blocks, lo, i, need as int, al);
    }
    heap.list = Ghost(carved(blocks, i, need as int, al));
}

/// What an allocation does: the request is carved from the first block that fits, with a
/// header in front of the payload; or no block fits, and nothing happens.
pub open spec fn handed_out(
    h1: Heap,
    h2: Heap,
    m1: Map<int, u64>,
    m2: Map<int, u64>,
    size: u64,
    align: u64,
    user: u64,
) -> bool {
    let blocks = h1.blocks();
    let need = need_of(size as int);
    let al = align_of(align as int);
    let i = first_fit(blocks, need, al, 0);
    if i < blocks.len() {
        &&& user == user_at(blocks[i], al)
        &&& user != 0
        &&& h2.blocks() == carved(blocks, i, need, al)
        &&& m2[user - 16] == taken(blocks[i], need, al).0
        &&& m2[user - 8] == taken(blocks[i], need, al).1 - taken(blocks[i], need, al).0
        &&& live(m2, h2.blocks(), h1.start(), user as int)
    } else {
        &&& user == 0
        &&& h2 == h1
        &&& m2 == m1
    }
}

/// What giving an allocation back does: its chunk is free again, merged with the free
/// blocks it touches.
pub open spec fn given_back(
    h1: Heap,
    h2: Heap,
    m1: Map<int, u64>,
    m2: Map<int, u64>,
    user: u64,
) -> bool {
    let start = m1[user - 16] as int;
    let size = m1[user - 8] as int;
    let blocks = h1.blocks();
    &&& h2.blocks() == merged(blocks, position(blocks, start, 0), start, size)
    &&& total(h2.blocks()) == total(blocks) + size
    &&& forall|a: int|
        !in_free(blocks, a) && !(start <= a < start + size) ==> #[trigger] m2[a] == m1[a]
}

/// Allocate `size` bytes at the alignment `align`: the address of the
/// payload, or 0 when no block is large enough. `align` is a power of two, and
/// `size` rounded up to it stays below `LAYOUT_MAX`.
#[verifier::spinoff_prover]
#[verifier::rlimit(60)]
pub fn alloc_inner(heap: &mut Heap, mem: &mut Memory, size: u64, align: u64) -> (user: u64)
    requires
        old(mem).wf(),
        old(heap).wf(old(mem)@),
        power2::is_pow2(align as int),
        size + align - 1 <= LAYOUT_MAX,
    ensures
        final(mem).wf(),
        final(heap).wf(final(mem)@),
        final(heap).start() == old(heap).start(),
        handed_out(*old(heap), *final(heap), old(mem)@, final(mem)@, size, align, user),
        forall|a: int|
            !in_free(old(heap).blocks(), a) ==> #[trigger] final(mem)@[a] == old(mem)@[a],
{
    let ghost blocks = heap.list@;
    let ghost m0 = mem@;
    let ghost lo = heap.start as int;
    let want: u64 = if size < 1 {
        1
    } else {
        size
    };
    let al: u64 = if align < ALIGN {
        ALIGN
    } else {
        align
    };
    proof {
        reveal(power2::is_pow2);
        assert(power2::is_pow2(16)) by {
            reveal_with_fuel(power2::is_pow2, 6);
        }
        lemma_up(want as int, 16);
    }
    let need: u64 = align_up(want, ALIGN);
    let mut prev: u64 = 0;
    let mut cur: u64 = heap.head;
    let ghost mut i: int = 0;
    while cur != 0
        invariant
            0 <= i <= blocks.len(),
            mem.wf(),
            mem@ == m0,
            m0 == old(mem)@,
            blocks == old(heap).list@,
            *heap == *old(heap),
            heap.wf(m0),
            blocks == heap.list@,
            lo == heap.start,
            cur == if i < blocks.len() {
                blocks[i].0
            } else {
                0
            },
            prev == if i > 0 {
                blocks[i - 1].0
            } else {
                0
            },
            need == need_of(size as int),
            need >= 16,
            need % 16 == 0,
            need <= size + 16,
            al == align_of(align as int),
            al >= 16,
            power2::is_pow2(al as int),
            align >= 1,
            size + align - 1 <= LAYOUT_MAX,
            first_fit(blocks, need as int, al as int, 0) == first_fit(
                blocks,
                need as int,
                al as int,
                i,
            ),
        decreases blocks.len() - i,
    {
        proof {
            if i >= blocks.len() {
                assert(false);
            }
            assert(block_ok(blocks[i], lo));
            assert(node(m0, blocks, i));
            lemma_header(blocks[i], lo);
            lemma_up(cur + 16, al as int);
        }
        let block_start: u64 = cur;
        let block_size: u64 = mem.read(cur);
        let block_end: u64 = block_start + block_size;
        let user_start: u64 = align_up(block_start + HEADER, al);
        let user_end: u64 = user_start + need;
        if user_end <= block_end {
            carve(heap, mem, prev, cur, block_end, user_start, need, Ghost(i), Ghost(al as int));
            return user_start;
        }
        proof {
            assert(!fits(blocks[i], need as int, al as int));
            if i + 1 < blocks.len() {
                assert(block_ok(blocks[i + 1], lo));
            }
            i = i + 1;
        }
        prev = cur;
        cur = mem.read(cur + 8);
    }
    proof {
        if i < blocks.len() {
            assert(block_ok(blocks[i], lo));
        }
    }
    0
}

/// A block is no larger than all of them.
proof fn lemma_total_take(blocks: Seq<(int, int)>, lo: int, i: int)
    requires
        layout(blocks, lo),
        0 <= i < blocks.len(),
    ensures
        blocks[i].1 <= total(blocks),
    decreases blocks.len(),
{
    let rest = blocks.drop_last();
    assert(layout(rest, lo)) by {
        assert forall|k: int| 0 <= k < rest.len() implies block_ok(#[trigger] rest[k], lo) by {
            assert(rest[k] == blocks[k]);
        }
    }
    lemma_total_bound(rest, lo);
    if i < rest.len() {
        lemma_total_take(rest, lo, i);
        assert(block_ok(blocks.last(), lo));
    }
}

/// Where a live chunk stands among the free blocks.
proof fn lemma_position(blocks: Seq<(int, int)>, lo: int, start: int, size: int, i: int)
    requires
        layout(blocks, lo),
        0 <= i <= blocks.len(),
        size > 0,
        forall|k: int|
            #![trigger blocks[k]]
            0 <= k < blocks.len() ==> blocks[k].0 + blocks[k].1 <= start || start + size
                <= blocks[k].0,
        forall|k: int| 0 <= k < i ==> (#[trigger] blocks[k]).0 < start,
        i < blocks.len() ==> blocks[i].0 >= start,
    ensures
        position(blocks, start, 0) == i,
        i > 0 ==> blocks[i - 1].0 + blocks[i - 1].1 <= start,
        i < blocks.len() ==> start + size <= blocks[i].0,
{
    lemma_position_from(blocks, start, 0, i);
    if i < blocks.len() {
        assert(block_ok(blocks[i], lo));
    }
}

proof fn lemma_position_from(blocks: Seq<(int, int)>, start: int, k: int, i: int)
    requires
        0 <= k <= i <= blocks.len(),
        forall|q: int| 0 <= q < i ==> (#[trigger] blocks[q]).0 < start,
        i < blocks.len() ==> blocks[i].0 >= start,
    ensures
        position(blocks, start, k) == i,
    decreases i - k,
{
    if k < i {
        lemma_position_from(blocks, start, k + 1, i);
    }
}

/// First block that a chunk given back before the `i`-th one replaces.
spec fn merge_from(blocks: Seq<(int, int)>, i: int, start: int) -> int {
    if i > 0 && blocks[i - 1].0 + blocks[i - 1].1 == start {
        i - 1
    } else {
        i
    }
}

/// One past the last block that a chunk given back before the `i`-th one
/// replaces.
spec fn merge_to(blocks: Seq<(int, int)>, i: int, end: int) -> int {
    if i < blocks.len() && end == blocks[i].0 {
        i + 1
    } else {
        i
    }
}

/// The block a chunk becomes once it is merged with its neighbours.
spec fn merge_block(blocks: Seq<(int, int)>, i: int, start: int, size: int) -> (int, int) {
    let s = if merge_from(blocks, i, start) < i {
        blocks[i - 1].0
    } else {
        start
    };
    let e = if merge_to(blocks, i, start + size) > i {
        blocks[i].0 + blocks[i].1
    } else {
        start + size
    };
    (s, e - s)
}

/// The merged list is in order, and holds `size` more bytes.
proof fn lemma_merged_layout(blocks: Seq<(int, int)>, lo: int, i: int, start: int, size: int)
    requires
        layout(blocks, lo),
        0 <= i <= blocks.len(),
        block_ok((start, size), lo),
        i > 0 ==> blocks[i - 1].0 + blocks[i - 1].1 <= start,
        i < blocks.len() ==> start + size <= blocks[i].0,
    ensures
        merged(blocks, i, start, size) == blocks.take(merge_from(blocks, i, start)) + seq![
            merge_block(blocks, i, start, size),
        ] + blocks.skip(merge_to(blocks, i, start + size)),
        layout(merged(blocks, i, start, size), lo),
        total(merged(blocks, i, start, size)) == total(blocks) + size,
{
    let f = merge_from(blocks, i, start);
    let j = merge_to(blocks, i, start + size);
    let mid = seq![merge_block(blocks, i, start, size)];
    assert(block_ok(merge_block(blocks, i, start, size), lo)) by {
        reveal(granules);
        let b = merge_block(blocks, i, start, size);
        lemma_sixteens(start, size);
        if i > 0 {
            assert(block_ok(blocks[i - 1], lo));
        }
        if i < blocks.len() {
            assert(block_ok(blocks[i], lo));
            lemma_sixteens(blocks[i].0, blocks[i].1);
        }
        lemma_sixteens(b.0 + b.1, b.0);
    }
    if f > 0 {
        assert(block_ok(blocks[f - 1], lo));
    }
    if j < blocks.len() {
        assert(block_ok(blocks[j], lo));
    }
    lemma_layout_splice(blocks, lo, f, j, mid);
    lemma_total_splice(blocks, f, j, mid);
    lemma_total_short(mid);
    lemma_total_short(blocks.subrange(f, j));
}

/// The words written to give a chunk back leave the list in order.
proof fn lemma_merged(
    m: Map<int, u64>,
    m2: Map<int, u64>,
    blocks: Seq<(int, int)>,
    lo: int,
    i: int,
    start: int,
    size: int,
)
    requires
        layout(blocks, lo),
        chain(m, blocks),
        0 <= i <= blocks.len(),
        block_ok((start, size), lo),
        i > 0 ==> blocks[i - 1].0 + blocks[i - 1].1 <= start,
        i < blocks.len() ==> start + size <= blocks[i].0,
        ({
            let b = merge_block(blocks, i, start, size);
            &&& m2[b.0] == b.1
            &&& m2[b.0 + 8] == first(blocks.skip(merge_to(blocks, i, start + size)))
            &&& i > 0 && merge_from(blocks, i, start) == i ==> m2[blocks[i - 1].0 + 8] == start
            &&& forall|a: int|
                !(start <= a < start + size) && a != b.0 && a != b.0 + 8 && !(i > 0 && a
                    == blocks[i - 1].0 + 8) ==> #[trigger] m2[a] == m[a]
        }),
    ensures
        chain(m2, merged(blocks, i, start, size)),
        layout(merged(blocks, i, start, size), lo),
        total(merged(blocks, i, start, size)) == total(blocks) + size,
        first(merged(blocks, i, start, size)) == if i == 0 {
            start
        } else {
            first(blocks)
        },
{
    let f = merge_from(blocks, i, start);
    let j = merge_to(blocks, i, start + size);
    let b = merge_block(blocks, i, start, size);
    let mid = seq![b];
    lemma_merged_layout(blocks, lo, i, start, size);
    if i > 0 {
        assert(block_ok(blocks[i - 1], lo));
    }
    assert forall|k: int|
        0 <= k < f - 1 || j <= k < blocks.len() implies m2[(#[trigger] blocks[k]).0]
        == m[blocks[k].0] && m2[blocks[k].0 + 8] == m[blocks[k].0 + 8] by {
        assert(block_ok(blocks[k], lo));
        if k < f - 1 {
            assert(blocks[k].0 + blocks[k].1 < blocks[i - 1].0);
        } else {
            assert(start + size <= blocks[k].0) by {
                if k > i {
                    assert(blocks[i].0 + blocks[i].1 < blocks[k].0);
                    assert(block_ok(blocks[i], lo));
                }
            }
        }
    }
    if f > 0 {
        assert(block_ok(blocks[f - 1], lo));
        if f < i {
            assert(blocks[f - 1].0 + blocks[f - 1].1 < blocks[i - 1].0);
            assert(node(m, blocks, f - 1));
        }
        assert(first(mid + blocks.skip(j)) == b.0);
    }
    lemma_chain_splice(m, m2, blocks, f, j, mid);
}

/// The last free block below `start` and the first one that is not: their
/// addresses (0 for none), and the place between them.
#[verifier::rlimit(60)]
fn find_place(mem: &Memory, head: u64, start: u64, Ghost(blocks): Ghost<Seq<(int, int)>>, Ghost(
    lo,
): Ghost<int>) -> (place: (u64, u64, Ghost<int>))
    requires
        mem.wf(),
        layout(blocks, lo),
        chain(mem@, blocks),
        DRAM_BASE <= lo,
        lo + HEAP_SIZE <= PHYS_TOP,
        head == first(blocks),
    ensures
        ({
            let i = place.2@;
            &&& 0 <= i <= blocks.len()
            &&& place.1 == if i < blocks.len() {
                blocks[i].0
            } else {
                0
            }
            &&& place.0 == if i > 0 {
                blocks[i - 1].0
            } else {
                0
            }
            &&& forall|k: int| 0 <= k < i ==> (#[trigger] blocks[k]).0 < start
            &&& i < blocks.len() ==> blocks[i].0 >= start
        }),
{
    let mut prev: u64 = 0;
    let mut cur: u64 = head;
    let ghost mut i: int = 0;
    while cur != 0 && cur < start
        invariant
            0 <= i <= blocks.len(),
            mem.wf(),
            layout(blocks, lo),
            chain(mem@, blocks),
            DRAM_BASE <= lo,
            lo + HEAP_SIZE <= PHYS_TOP,
            cur == if i < blocks.len() {
                blocks[i].0
            } else {
                0
            },
            prev == if i > 0 {
                blocks[i - 1].0
            } else {
                0
            },
            forall|k: int| 0 <= k < i ==> (#[trigger] blocks[k]).0 < start,
        decreases blocks.len() - i,
    {
        proof {
            lemma_header(blocks[i], lo);
            assert(node(mem@, blocks, i));
            if i + 1 < blocks.len() {
                assert(block_ok(blocks[i + 1], lo));
            }
            i = i + 1;
        }
        prev = cur;
        cur = mem.read(cur + 8);
    }
    proof {
        if i < blocks.len() {
            assert(block_ok(blocks[i], lo));
        }
    }
    (prev, cur, Ghost(i))
}

/// Put a chunk between the blocks at `prev` and `cur`, merging it with those
/// it touches; the new head of the list.
#[verifier::spinoff_prover]
#[verifier::rlimit(60)]
fn link_in(
    mem: &mut Memory,
    head: u64,
    prev: u64,
    cur: u64,
    start: u64,
    size: u64,
    Ghost(blocks): Ghost<Seq<(int, int)>>,
    Ghost(lo): Ghost<int>,
    Ghost(i): Ghost<int>,
) -> (new_head: u64)
    requires
        old(mem).wf(),
        layout(blocks, lo),
        chain(old(mem)@, blocks),
        DRAM_BASE <= lo,
        lo + HEAP_SIZE <= PHYS_TOP,
        head == first(blocks),
        0 <= i <= blocks.len(),
        cur == if i < blocks.len() {
            blocks[i].0
        } else {
            0
        },
        prev == if i > 0 {
            blocks[i - 1].0
        } else {
            0
        },
        block_ok((start as int, size as int), lo),
        i > 0 ==> blocks[i - 1].0 + blocks[i - 1].1 <= start,
        i < blocks.len() ==> start + size <= blocks[i].0,
    ensures
        final(mem).wf(),
        chain(final(mem)@, merged(blocks, i, start as int, size as int)),
        layout(merged(blocks, i, start as int, size as int), lo),
        total(merged(blocks, i, start as int, size as int)) == total(blocks) + size,
        new_head == first(merged(blocks, i, start as int, size as int)),
        forall|a: int|
            !in_free(blocks, a) && !(start <= a < start + size) ==> #[trigger] final(mem)@[a]
                == old(mem)@[a],
{
    let ghost m0 = mem@;
    let ghost j = merge_to(blocks, i, start + size);
    proof {
        lemma_header((start as int, size as int), lo);
        if i < blocks.len() {
            lemma_header(blocks[i], lo);
            assert(node(m0, blocks, i));
        }
        if i > 0 {
            lemma_header(blocks[i - 1], lo);
            assert(node(m0, blocks, i - 1));
        }
        if j < blocks.len() {
            assert(blocks.skip(j)[0] == blocks[j]);
        }
    }
    // Merge forward into `cur`.
    let mut new_size: u64 = size;
    let mut new_next: u64 = cur;
    if cur != 0 && start + size == cur {
        new_size = new_size + mem.read(cur);
        new_next = mem.read(cur + 8);
    }
    assert(new_next == first(blocks.skip(j)));
    mem.write(start, new_size);
    mem.write(start + 8, new_next);
    // Merge backward into `prev`, or link in.
    let mut new_head: u64 = head;
    if prev == 0 {
        new_head = start;
    } else {
        let prev_size: u64 = mem.read(prev);
        if prev + prev_size == start {
            mem.write(prev, prev_size + new_size);
            mem.write(prev + 8, new_next);
        } else {
            mem.write(prev + 8, start);
        }
    }
    proof {
        lemma_merged(m0, mem@, blocks, lo, i, start as int, size as int);
        assert forall|a: int|
            !in_free(blocks, a) && !(start <= a < start + size) implies #[trigger] mem@[a]
            == m0[a] by {
            if i > 0 {
                assert(!(blocks[i - 1].0 <= a < blocks[i - 1].0 + blocks[i - 1].1));
            }
        }
    }
    new_head
}

/// Put a chunk that is not free back on the list; the new head.
#[verifier::spinoff_prover]
fn give_back(
    mem: &mut Memory,
    head: u64,
    start: u64,
    size: u64,
    Ghost(blocks): Ghost<Seq<(int, int)>>,
    Ghost(lo): Ghost<int>,
) -> (new_head: u64)
    requires
        old(mem).wf(),
        layout(blocks, lo),
        chain(old(mem)@, blocks),
        DRAM_BASE <= lo,
        lo + HEAP_SIZE <= PHYS_TOP,
        head == first(blocks),
        block_ok((start as int, size as int), lo),
        forall|k: int|
            #![trigger blocks[k]]
            0 <= k < blocks.len() ==> blocks[k].0 + blocks[k].1 <= start || start + size
                <= blocks[k].0,
    ensures
        final(mem).wf(),
        ({
            let new = merged(blocks, position(blocks, start as int, 0), start as int, size as int);
            &&& chain(final(mem)@, new)
            &&& layout(new, lo)
            &&& total(new) == total(blocks) + size
            &&& new_head == first(new)
        }),
        forall|a: int|
            !in_free(blocks, a) && !(start <= a < start + size) ==> #[trigger] final(mem)@[a]
                == old(mem)@[a],
{
    let (prev, cur, i) = find_place(mem, head, start, Ghost(blocks), Ghost(lo));
    proof {
        lemma_position(blocks, lo, start as int, size as int, i@);
    }
    link_in(mem, head, prev, cur, start, size, Ghost(blocks), Ghost(lo), Ghost(i@))
}

/// The chunk that the allocation whose payload is at `user` takes.
fn header_of(mem: &Memory, user: u64, Ghost(blocks): Ghost<Seq<(int, int)>>, Ghost(lo): Ghost<
    int,
>) -> (chunk: (u64, u64))
    requires
        mem.wf(),
        live(mem@, blocks, lo, user as int),
        DRAM_BASE <= lo,
        lo + HEAP_SIZE <= PHYS_TOP,
    ensures
        chunk.0 == mem@[user - 16],
        chunk.1 == mem@[user - 8],
{
    proof {
        lemma_words(user as int);
    }
    (mem.read(user - HEADER), mem.read(user - HEADER + 8))
}

/// Give the allocation whose payload is at `user` back: its chunk goes to its
/// place in the address-ordered list and is merged with both sides.
#[verifier::spinoff_prover]
#[verifier::rlimit(60)]
pub fn dealloc_inner(heap: &mut Heap, mem: &mut Memory, user: u64)
    requires
        old(mem).wf(),
        old(heap).wf(old(mem)@),
        live(old(mem)@, old(heap).blocks(), old(heap).start(), user as int),
    ensures
        final(mem).wf(),
        final(heap).wf(final(mem)@),
        final(heap).start() == old(heap).start(),
        given_back(*old(heap), *final(heap), old(mem)@, final(mem)@, user),
{
    let ghost blocks = heap.list@;
    let ghost lo = heap.start as int;
    let (start, size) = header_of(mem, user, Ghost(blocks), Ghost(lo));
    proof {
        lemma_total_bound(blocks, lo);
    }
    heap.free_bytes = heap.free_bytes + size;
    heap.head = give_back(mem, heap.head, start, size, Ghost(blocks), Ghost(lo));
    heap.list =
    Ghost(merged(blocks, position(blocks, start as int, 0), start as int, size as int));
}

// --- Laws --------------------------------------------------------------------

/// Freeing what was just allocated puts the free list back exactly as it was,
/// block for block.
#[verifier::spinoff_prover]
#[verifier::rlimit(60)]
pub proof fn lemma_alloc_dealloc(blocks: Seq<(int, int)>, lo: int, i: int, need: int, align: int)
    requires
        layout(blocks, lo),
        0 <= i < blocks.len(),
        fits(blocks[i], need, align),
        power2::is_pow2(align),
        align >= 16,
        need % 16 == 0,
        need >= 16,
    ensures
        ({
            let t = taken(blocks[i], need, align);
            let new = carved(blocks, i, need, align);
            merged(new, position(new, t.0, 0), t.0, t.1 - t.0) == blocks
        }),
{
    let b = blocks[i];
    let p = pieces(b, need, align);
    let t = taken(b, need, align);
    let new = carved(blocks, i, need, align);
    lemma_pieces(b, lo, need, align);
    lemma_taken_clear(blocks, lo, i, need, align);
    lemma_layout_splice(blocks, lo, i, i + 1, p);
    let front: int = if t.0 > b.0 {
        1
    } else {
        0
    };
    let at = i + front;
    assert forall|k: int| 0 <= k < at implies (#[trigger] new[k]).0 < t.0 by {
        if k < i {
            assert(new[k] == blocks[k]);
        } else {
            assert(new[k] == p[0]);
        }
    }
    if at < new.len() {
        if front < p.len() {
            assert(new[at] == p[front]);
        } else {
            assert(new[at] == blocks[i + 1]);
        }
    }
    lemma_position(new, lo, t.0, t.1 - t.0, at);
    let left = at > 0 && new[at - 1].0 + new[at - 1].1 == t.0;
    let right = at < new.len() && t.1 == new[at].0;
    if at > 0 {
        if front == 1 {
            assert(new[at - 1] == p[0]);
        } else {
            assert(new[at - 1] == blocks[i - 1]);
        }
    }
    assert(left == (front == 1));
    assert(right == (t.1 < b.0 + b.1));
    assert(merged(new, at, t.0, t.1 - t.0) =~= blocks);
}

/// A new allocation shares no byte with one that is live, which stays live.
pub proof fn lemma_alloc_live(
    m: Map<int, u64>,
    m2: Map<int, u64>,
    blocks: Seq<(int, int)>,
    lo: int,
    i: int,
    need: int,
    align: int,
    other: int,
)
    requires
        layout(blocks, lo),
        0 <= i < blocks.len(),
        fits(blocks[i], need, align),
        power2::is_pow2(align),
        align >= 16,
        need % 16 == 0,
        need >= 16,
        live(m, blocks, lo, other),
        forall|a: int| !in_free(blocks, a) ==> #[trigger] m2[a] == m[a],
    ensures
        live(m2, carved(blocks, i, need, align), lo, other),
        m2[other - 16] == m[other - 16],
        m2[other - 8] == m[other - 8],
        ({
            let t = taken(blocks[i], need, align);
            let start = m[other - 16] as int;
            let size = m[other - 8] as int;
            t.1 <= start || start + size <= t.0
        }),
{
    let b = blocks[i];
    let p = pieces(b, need, align);
    lemma_pieces(b, lo, need, align);
    assert(!in_free(blocks, other - 16));
    assert(!in_free(blocks, other - 8));
    let new = carved(blocks, i, need, align);
    let start = m[other - 16] as int;
    let size = m[other - 8] as int;
    assert forall|k: int|
        #![trigger new[k]]
        0 <= k < new.len() implies new[k].0 + new[k].1 <= start || start + size <= new[k].0 by {
        if k < i {
            assert(new[k] == blocks[k]);
        } else if k < i + p.len() {
            assert(new[k] == p[k - i]);
        } else {
            assert(new[k] == blocks[k - p.len() + 1]);
        }
    }
}

/// The chunk of the allocation whose payload is at `user`.
pub open spec fn chunk(m: Map<int, u64>, user: int) -> (int, int) {
    (m[user - 16] as int, m[user - 8] as int)
}

/// No byte is in both.
pub open spec fn disjoint(a: (int, int), b: (int, int)) -> bool {
    a.0 + a.1 <= b.0 || b.0 + b.1 <= a.0
}

/// Giving one allocation back leaves every other one alone.
pub proof fn lemma_dealloc_live(
    m: Map<int, u64>,
    m2: Map<int, u64>,
    blocks: Seq<(int, int)>,
    lo: int,
    user: int,
    other: int,
)
    requires
        layout(blocks, lo),
        live(m, blocks, lo, user),
        live(m, blocks, lo, other),
        disjoint(chunk(m, user), chunk(m, other)),
        forall|a: int|
            !in_free(blocks, a) && !(chunk(m, user).0 <= a < chunk(m, user).0 + chunk(m, user).1)
                ==> #[trigger] m2[a] == m[a],
    ensures
        ({
            let (start, size) = chunk(m, user);
            live(m2, merged(blocks, position(blocks, start, 0), start, size), lo, other)
        }),
        chunk(m2, other) == chunk(m, other),
{
    let (start, size) = chunk(m, user);
    let c = chunk(m, other);
    let i = position(blocks, start, 0);
    let new = merged(blocks, i, start, size);
    assert(!in_free(blocks, other - 16));
    assert(!in_free(blocks, other - 8));
    lemma_place(blocks, start, 0);
    lemma_position(blocks, lo, start, size, i);
    lemma_merged_layout(blocks, lo, i, start, size);
    let f = merge_from(blocks, i, start);
    let j = merge_to(blocks, i, start + size);
    assert forall|k: int| #![trigger new[k]] 0 <= k < new.len() implies disjoint(new[k], c) by {
        if k < f {
            assert(new[k] == blocks[k]);
        } else if k == f {
            assert(new[k] == merge_block(blocks, i, start, size));
            if i > 0 {
                assert(disjoint(blocks[i - 1], c));
            }
            if i < blocks.len() {
                assert(disjoint(blocks[i], c));
            }
        } else {
            assert(new[k] == blocks[k - f - 1 + j]);
        }
    }
}

/// Everything before the place of `start` is below it, and nothing behind.
proof fn lemma_place(blocks: Seq<(int, int)>, start: int, k: int)
    requires
        0 <= k <= blocks.len(),
        forall|q: int| 0 <= q < k ==> (#[trigger] blocks[q]).0 < start,
    ensures
        k <= position(blocks, start, k) <= blocks.len(),
        forall|q: int| 0 <= q < position(blocks, start, k) ==> (#[trigger] blocks[q]).0 < start,
        position(blocks, start, k) < blocks.len() ==> blocks[position(blocks, start, k)].0 >= start,
    decreases blocks.len() - k,
{
    if k < blocks.len() && blocks[k].0 < start {
        lemma_place(blocks, start, k + 1);
    }
}

/// What a request comes to: a granular payload and an alignment that is a
/// power of two and at least the granule.
pub proof fn lemma_request(size: int, align: int)
    requires
        power2::is_pow2(align),
    ensures
        need_of(size) % 16 == 0,
        need_of(size) >= 16,
        align_of(align) >= 16,
        power2::is_pow2(align_of(align)),
{
    lemma_up(
        if size < 1 {
            1
        } else {
            size
        },
        16,
    );
    assert(power2::is_pow2(16)) by {
        reveal_with_fuel(power2::is_pow2, 6);
    }
}

/// The first block that fits does fit.
pub proof fn lemma_first_fit(blocks: Seq<(int, int)>, need: int, align: int, i: int)
    requires
        0 <= i <= blocks.len(),
    ensures
        i <= first_fit(blocks, need, align, i) <= blocks.len(),
        first_fit(blocks, need, align, i) < blocks.len() ==> fits(
            blocks[first_fit(blocks, need, align, i)],
            need,
            align,
        ),
    decreases blocks.len() - i,
{
    if i < blocks.len() && !fits(blocks[i], need, align) {
        lemma_first_fit(blocks, need, align, i + 1);
    }
}

/// An allocation takes what was free: the chunk it takes, and all that stays
/// free, were free before.
pub proof fn lemma_carved_from(
    blocks: Seq<(int, int)>,
    lo: int,
    i: int,
    need: int,
    align: int,
    a: int,
)
    requires
        layout(blocks, lo),
        0 <= i < blocks.len(),
        fits(blocks[i], need, align),
        power2::is_pow2(align),
        align >= 16,
        need % 16 == 0,
        need >= 16,
    ensures
        in_free(carved(blocks, i, need, align), a) ==> in_free(blocks, a),
        taken(blocks[i], need, align).0 <= a < taken(blocks[i], need, align).1 ==> in_free(
            blocks,
            a,
        ),
{
    let b = blocks[i];
    let p = pieces(b, need, align);
    let new = carved(blocks, i, need, align);
    lemma_pieces(b, lo, need, align);
    if in_free(new, a) {
        let k = choose|k: int| 0 <= k < new.len() && (#[trigger] new[k]).0 <= a < new[k].0 + new[k].1;
        if k < i {
            assert(new[k] == blocks[k]);
        } else if k < i + p.len() {
            assert(new[k] == p[k - i]);
            assert(b.0 <= a < b.0 + b.1);
        } else {
            assert(new[k] == blocks[k - p.len() + 1]);
        }
    }
}

/// An allocation is served: its payload has the alignment and, from its first byte to its
/// last, was free and is not any more; nothing that was not free becomes free. It is served
/// whenever some block has room for the size, the alignment and a header, and from no block
/// behind such a one. If it is not served, nothing changes.
#[verifier::spinoff_prover]
#[verifier::rlimit(60)]
pub proof fn lemma_alloc_serves(
    h1: Heap,
    h2: Heap,
    m1: Map<int, u64>,
    m2: Map<int, u64>,
    size: u64,
    align: u64,
    user: u64,
    j: int,
    a: int,
)
    requires
        h1.wf(m1),
        power2::is_pow2(align as int),
        handed_out(h1, h2, m1, m2, size, align, user),
        0 <= j < h1.blocks().len(),
    ensures
        ({
            let b = h1.blocks()[j];
            let ample = b.1 >= size + 32 + (if align < 16 {
                16
            } else {
                align as int
            });
            &&& ample ==> user != 0
            &&& ample ==> user < b.0 + b.1
            &&& user != 0 ==> user % align == 0 && user % 16 == 0
            &&& user != 0 && user - 16 <= a < user + size ==> in_free(h1.blocks(), a) && !in_free(
                h2.blocks(),
                a,
            )
            &&& in_free(h2.blocks(), a) ==> in_free(h1.blocks(), a)
            &&& user == 0 ==> h2.blocks() == h1.blocks() && m2 == m1
        }),
{
    let blocks = h1.blocks();
    let lo = h1.start();
    let need = need_of(size as int);
    let al = align_of(align as int);
    let i = first_fit(blocks, need, al, 0);
    lemma_blocks(h1, m1);
    lemma_request(size as int, align as int);
    lemma_first_fit(blocks, need, al, 0);
    lemma_first_fit_least(blocks, need, al, 0);
    lemma_need(size as int);
    let b = blocks[j];
    if b.1 >= size + 32 + (if align < 16 {
        16
    } else {
        align as int
    }) {
        lemma_up(b.0 + 16, al);
        assert(fits(b, need, al));
        assert(i <= j);
        assert(block_ok(blocks[i], lo));
        if i < j {
            assert(blocks[i].0 + blocks[i].1 < blocks[j].0);
        }
    }
    if i < blocks.len() {
        assert(block_ok(blocks[i], lo));
        lemma_pieces(blocks[i], lo, need, al);
        lemma_carved_from(blocks, lo, i, need, al, a);
        lemma_aligned(user as int, al, align as int);
        let t = taken(blocks[i], need, al);
        if user - 16 <= a < user + size {
            assert(t.0 <= a < t.1);
            if in_free(h2.blocks(), a) {
                let k = choose|k: int|
                    0 <= k < h2.blocks().len() && (#[trigger] h2.blocks()[k]).0 <= a < h2.blocks()[k].0
                        + h2.blocks()[k].1;
                assert(h2.blocks()[k].0 + h2.blocks()[k].1 <= t.0 || t.1 <= h2.blocks()[k].0);
            }
        }
    }
}

/// What is aligned to 16 and more is aligned to less.
proof fn lemma_aligned(x: int, al: int, align: int)
    requires
        power2::is_pow2(align),
        al == align_of(align),
        x % al == 0,
    ensures
        x % align == 0,
{
    if align < 16 {
        assert(align == 1 || align == 2 || align == 4 || align == 8) by {
            reveal_with_fuel(power2::is_pow2, 5);
        }
        assert(x % 16 == 0);
        if align == 1 {
            assert(x % 1 == 0);
        } else if align == 2 {
            assert(x % 2 == 0);
        } else if align == 4 {
            assert(x % 4 == 0);
        } else {
            assert(x % 8 == 0);
        }
    }
}

/// The payload is as large as was asked for, and less than a granule larger.
proof fn lemma_need(size: int)
    requires
        0 <= size,
    ensures
        size <= need_of(size) <= size + 16,
        need_of(size) < size + 16 || size == 0,
{
    lemma_up(
        if size < 1 {
            1
        } else {
            size
        },
        16,
    );
}

/// No block before the first that fits does.
proof fn lemma_first_fit_least(blocks: Seq<(int, int)>, need: int, align: int, i: int)
    requires
        0 <= i <= blocks.len(),
    ensures
        forall|j: int|
            i <= j < first_fit(blocks, need, align, i) ==> !fits(#[trigger] blocks[j], need, align),
        first_fit(blocks, need, align, i) >= i,
    decreases blocks.len() - i,
{
    if i < blocks.len() && !fits(blocks[i], need, align) {
        lemma_first_fit_least(blocks, need, align, i + 1);
    }
}

/// What is given back is free, and nothing else becomes free or stops being free; and as no
/// two free blocks ever touch, all of it is in one block with the free bytes next to it.
pub proof fn lemma_dealloc_frees(
    h1: Heap,
    h2: Heap,
    m1: Map<int, u64>,
    m2: Map<int, u64>,
    user: u64,
    a: int,
)
    requires
        h1.wf(m1),
        h2.wf(m2),
        live(m1, h1.blocks(), h1.start(), user as int),
        given_back(h1, h2, m1, m2, user),
    ensures
        in_free(h2.blocks(), a) <==> in_free(h1.blocks(), a) || m1[user - 16] <= a < m1[user - 16]
            + m1[user - 8],
        forall|i: int, j: int|
            #![trigger h2.blocks()[i], h2.blocks()[j]]
            0 <= i < j < h2.blocks().len() ==> h2.blocks()[i].0 + h2.blocks()[i].1
                < h2.blocks()[j].0,
{
    lemma_blocks(h1, m1);
    lemma_blocks(h2, m2);
    lemma_merged_free(h1.blocks(), h1.start(), m1[user - 16] as int, m1[user - 8] as int, a);
}

/// What is free once a chunk was merged in: what was free, and the chunk.
#[verifier::spinoff_prover]
#[verifier::rlimit(60)]
proof fn lemma_merged_free(blocks: Seq<(int, int)>, lo: int, start: int, size: int, a: int)
    requires
        layout(blocks, lo),
        size > 0,
        forall|k: int|
            #![trigger blocks[k]]
            0 <= k < blocks.len() ==> blocks[k].0 + blocks[k].1 <= start || start + size
                <= blocks[k].0,
    ensures
        in_free(merged(blocks, position(blocks, start, 0), start, size), a) <==> in_free(blocks, a)
            || start <= a < start + size,
{
    let i = position(blocks, start, 0);
    lemma_place(blocks, start, 0);
    lemma_position(blocks, lo, start, size, i);
    let new = merged(blocks, i, start, size);
    let left = i > 0 && blocks[i - 1].0 + blocks[i - 1].1 == start;
    let right = i < blocks.len() && start + size == blocks[i].0;
    let f = if left {
        i - 1
    } else {
        i
    };
    let g = if right {
        i + 1
    } else {
        i
    };
    assert(new == blocks.take(f) + seq![new[f]] + blocks.skip(g));
    assert(new[f].0 <= start && start + size <= new[f].0 + new[f].1);
    assert(left ==> new[f].0 == blocks[i - 1].0);
    assert(!left ==> new[f].0 == start);
    assert(right ==> new[f].0 + new[f].1 == blocks[i].0 + blocks[i].1);
    assert(!right ==> new[f].0 + new[f].1 == start + size);
    if in_free(new, a) {
        let k = choose|k: int| 0 <= k < new.len() && (#[trigger] new[k]).0 <= a < new[k].0 + new[k].1;
        if k < f {
            assert(new[k] == blocks[k]);
        } else if k == f {
            if a < start {
                assert(blocks[i - 1].0 <= a < blocks[i - 1].0 + blocks[i - 1].1);
            } else if a >= start + size {
                assert(blocks[i].0 <= a < blocks[i].0 + blocks[i].1);
            }
        } else {
            assert(new[k] == blocks[k - f - 1 + g]);
        }
    }
    if in_free(blocks, a) {
        let k = choose|k: int|
            0 <= k < blocks.len() && (#[trigger] blocks[k]).0 <= a < blocks[k].0 + blocks[k].1;
        if k < f {
            assert(new[k] == blocks[k]);
        } else if k < g {
            assert(new[f].0 <= a < new[f].0 + new[f].1);
        } else {
            assert(new[k - g + f + 1] == blocks[k]);
        }
    }
    if start <= a < start + size {
        assert(new[f].0 <= a < new[f].0 + new[f].1);
    }
}

/// No more is free than there is.
pub proof fn lemma_free_counted(heap: Heap, m: Map<int, u64>)
    requires
        heap.wf(m),
    ensures
        0 <= total(heap.blocks()) <= u64::MAX,
{
}

} // verus!
