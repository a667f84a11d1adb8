//! The state of the whole kernel.
use vstd::arithmetic::power2;
use vstd::prelude::*;

use crate::console::Console;
use crate::fs::Fs;
use crate::heap;
use crate::heap::Heap;
use crate::kalloc;
use crate::loader::TEXT_MAX;
use crate::memlayout::{DRAM_BASE, HEAP_SIZE, PHYS_TOP};
use crate::physmem;
use crate::proc::{Scheduler, KSTACK_SIZE};
use crate::riscv::Hart;
use crate::spinlock;
use crate::sv39;
use crate::timer::Timer;
use crate::uproc;
use crate::vm;
use crate::vm::Vm;

verus! {

/// An embedded user program: its name, and where in kernel memory its image
/// lies.
#[derive(Clone, Copy)]
pub struct Program {
    pub name: &'static str,
    pub addr: u64,
    pub len: u64,
}

/// The kernel.
pub struct Kernel {
    pub vm: Vm,
    pub heap: Heap,
    pub sched: Scheduler,
    pub hart: Hart,
    pub timer: Timer,
    pub console: Console,
    pub fs: Fs,
    pub programs: Vec<Program>,
}

/// The image of `p` lies in kernel memory and fits into an address space.
pub open spec fn program_ok(p: Program, vm: Vm) -> bool {
    program_below(p, vm.start())
}

/// The image of `p` lies in kernel memory below `end` and fits into an address
/// space.
pub open spec fn program_below(p: Program, end: int) -> bool {
    &&& 0 < p.len <= TEXT_MAX
    &&& DRAM_BASE <= p.addr
    &&& p.addr + p.len <= end
}

/// The first program from the `i`-th on with that name; the number of programs
/// if there is none.
pub open spec fn find_program(programs: Seq<Program>, name: Seq<char>, i: int) -> int
    decreases programs.len() - i,
{
    if i >= programs.len() {
        programs.len() as int
    } else if programs[i].name@ == name {
        i
    } else {
        find_program(programs, name, i + 1)
    }
}

impl Kernel {
    /// The root table the hart must be on: that of the running thread, else the
    /// kernel's own.
    pub open spec fn active_table(self) -> u64 {
        match self.sched.running() {
            Some(p) => p.page_table,
            None => self.vm.root,
        }
    }

    /// Every part is sound, every process has an address space of its own, and the
    /// running thread's is active.
    pub open spec fn wf(self) -> bool {
        &&& self.sched.wf()
        &&& uproc::spaces(self.vm, self.sched.procs@)
        &&& self.heap.wf(self.vm.mem@)
        &&& self.heap.start() == self.vm.image.kernel_end
        &&& spinlock::hart_ok(self.hart)
        &&& self.hart.satp == vm::satp_of(self.active_table())
        &&& self.console.wf()
        &&& self.fs.wf()
        &&& forall|i: int|
            0 <= i < self.programs@.len() ==> program_ok(#[trigger] self.programs@[i], self.vm)
    }

    /// A user process is running, and the hart is in no critical section.
    pub open spec fn in_user_trap(self) -> bool {
        &&& self.wf()
        &&& uproc::user_calls(self.sched)
        &&& self.hart.noff == 0
    }
}

/// A program that is found stands in the list under its name.
pub proof fn lemma_find_program(programs: Seq<Program>, name: Seq<char>, i: int)
    requires
        0 <= i <= programs.len(),
    ensures
        i <= find_program(programs, name, i) <= programs.len(),
        find_program(programs, name, i) < programs.len() ==> programs[find_program(
            programs,
            name,
            i,
        )].name@ == name,
    decreases programs.len() - i,
{
    if i < programs.len() && programs[i].name@ != name {
        lemma_find_program(programs, name, i + 1);
    }
}

/// The program named `name`.
pub fn program(programs: &Vec<Program>, name: &str) -> (p: Option<Program>)
    ensures
        ({
            let i = find_program(programs@, name@, 0);
            p == if i < programs@.len() {
                Some(programs@[i])
            } else {
                None
            }
        }),
{
    let wanted: String = name.to_owned();
    let mut i: usize = 0;
    while i < programs.len()
        invariant
            i <= programs@.len(),
            wanted@ == name@,
            find_program(programs@, name@, 0) == find_program(programs@, name@, i as int),
        decreases programs@.len() - i,
    {
        if programs[i].name.to_owned() == wanted {
            return Some(programs[i]);
        }
        i = i + 1;
    }
    None
}

/// A change confined to pages of the page allocator's does not reach the heap.
pub proof fn lemma_heap_keep(heap: Heap, vm1: Vm, vm2: Vm)
    requires
        heap.wf(vm1.mem@),
        heap.start() == vm1.image.kernel_end,
        forall|a: int|
            !kalloc::managed(vm1.start(), sv39::page_of(a)) ==> #[trigger] vm2.mem@[a]
                == vm1.mem@[a],
    ensures
        heap.wf(vm2.mem@),
{
    heap::lemma_blocks(heap, vm1.mem@);
    assert forall|a: int| heap::in_free(heap.blocks(), a) implies #[trigger] vm2.mem@[a]
        == vm1.mem@[a] by {
        let blocks = heap.blocks();
        let i = choose|i: int|
            0 <= i < blocks.len() && (#[trigger] blocks[i]).0 <= a < blocks[i].0 + blocks[i].1;
        assert(heap::block_ok(blocks[i], heap.start()));
        assert(sv39::page_of(a) <= a) by {
            reveal(sv39::page_of);
        }
    }
    heap::lemma_frame(heap, vm1.mem@, vm2.mem@);
}

/// The two kernels differ in the heap and in memory only.
pub open spec fn heap_only(k1: Kernel, k2: Kernel) -> bool {
    &&& k2.vm.image == k1.vm.image
    &&& k2.vm.kmem == k1.vm.kmem
    &&& k2.vm.root == k1.vm.root
    &&& k2.heap.start() == k1.heap.start()
    &&& k2.sched == k1.sched
    &&& k2.hart == k1.hart
    &&& k2.timer == k1.timer
    &&& k2.console == k1.console
    &&& k2.fs == k1.fs
    &&& k2.programs == k1.programs
}

/// Bytes of the heap are below the page allocator's part of DRAM.
proof fn lemma_in_heap(heap: Heap, m: Map<int, u64>, a: int)
    requires
        heap.wf(m),
        heap::in_free(heap.blocks(), a),
    ensures
        heap.start() <= a < heap.start() + HEAP_SIZE,
{
    heap::lemma_blocks(heap, m);
    let blocks = heap.blocks();
    let i = choose|i: int|
        0 <= i < blocks.len() && (#[trigger] blocks[i]).0 <= a < blocks[i].0 + blocks[i].1;
    assert(heap::block_ok(blocks[i], heap.start()));
}

/// Set the `n` bytes from `a` on to zero. They are the heap's and in use.
fn zero(k: &mut Kernel, a: u64, n: u64)
    requires
        old(k).wf(),
        a % 8 == 0,
        n % 8 == 0,
        old(k).heap.start() <= a,
        a + n <= old(k).heap.start() + HEAP_SIZE,
        forall|b: int| a <= b < a + n ==> !#[trigger] heap::in_free(old(k).heap.blocks(), b),
    ensures
        final(k).wf(),
        heap_only(*old(k), *final(k)),
        final(k).heap == old(k).heap,
        forall|b: int| #[trigger]
            final(k).vm.mem@[b] == if a <= b < a + n && b % 8 == 0 {
                0
            } else {
                old(k).vm.mem@[b]
            },
{
    let ghost k0 = *k;
    let mut i: u64 = 0;
    proof {
        heap::lemma_blocks(k.heap, k.vm.mem@);
    }
    while i < n
        invariant
            i <= n,
            i % 8 == 0,
            n % 8 == 0,
            a % 8 == 0,
            k0.wf(),
            k.vm.mem.wf(),
            k0.heap.start() <= a,
            a + n <= k0.heap.start() + HEAP_SIZE,
            DRAM_BASE <= k0.heap.start(),
            k0.heap.start() + HEAP_SIZE <= PHYS_TOP,
            heap_only(k0, *k),
            k.heap == k0.heap,
            forall|b: int| #[trigger]
                k.vm.mem@[b] == if a <= b < a + i && b % 8 == 0 {
                    0
                } else {
                    k0.vm.mem@[b]
                },
        decreases n - i,
    {
        k.vm.mem.write(a + i, 0);
        i = i + 8;
    }
    proof {
        heap::lemma_frame(k0.heap, k0.vm.mem@, k.vm.mem@);
        uproc::lemma_low_spaces(k0.vm, k.vm, k0.sched.procs@);
    }
}

/// A zeroed kernel stack from the heap; None when no block is large enough.
#[verifier::rlimit(60)]
pub fn new_kstack(k: &mut Kernel) -> (kstack: Option<u64>)
    requires
        old(k).wf(),
    ensures
        final(k).wf(),
        heap_only(*old(k), *final(k)),
        ({
            let blocks = old(k).heap.blocks();
            let i = heap::first_fit(blocks, KSTACK_SIZE as int, 16, 0);
            if i < blocks.len() {
                &&& (kstack matches Some(a) && a == heap::user_at(blocks[i], 16) && a
                    + KSTACK_SIZE <= PHYS_TOP)
                &&& final(k).heap.blocks() == heap::carved(blocks, i, KSTACK_SIZE as int, 16)
                &&& heap::live(
                    final(k).vm.mem@,
                    final(k).heap.blocks(),
                    old(k).heap.start(),
                    kstack->0 as int,
                )
                &&& heap::chunk(final(k).vm.mem@, kstack->0 as int) == (
                    heap::taken(blocks[i], KSTACK_SIZE as int, 16).0,
                    heap::taken(blocks[i], KSTACK_SIZE as int, 16).1 - heap::taken(
                        blocks[i],
                        KSTACK_SIZE as int,
                        16,
                    ).0,
                )
                &&& forall|b: int|
                    kstack->0 <= b < kstack->0 + KSTACK_SIZE
                        ==> #[trigger] final(k).vm.mem@[b] == 0
            } else {
                &&& kstack is None
                &&& final(k).heap == old(k).heap
                &&& final(k).vm.mem@ == old(k).vm.mem@
            }
        }),
        forall|a: int|
            !heap::in_free(old(k).heap.blocks(), a) ==> #[trigger] final(k).vm.mem@[a] == old(
                k,
            ).vm.mem@[a],
{
    let ghost k0 = *k;
    proof {
        assert(power2::is_pow2(1)) by {
            reveal_with_fuel(power2::is_pow2, 2);
        }
        heap::lemma_request(KSTACK_SIZE as int, 1);
        heap::lemma_up(KSTACK_SIZE as int, 16);
        heap::lemma_blocks(k0.heap, k0.vm.mem@);
        heap::lemma_first_fit(k0.heap.blocks(), KSTACK_SIZE as int, 16, 0);
        assert(heap::need_of(KSTACK_SIZE as int) == KSTACK_SIZE);
    }
    let a: u64 = heap::alloc_inner(&mut k.heap, &mut k.vm.mem, KSTACK_SIZE, 1);
    proof {
        assert forall|b: int| k0.vm.start() <= b implies #[trigger] k.vm.mem@[b]
            == k0.vm.mem@[b] by {
            if heap::in_free(k0.heap.blocks(), b) {
                lemma_in_heap(k0.heap, k0.vm.mem@, b);
            }
        }
        uproc::lemma_low_spaces(k0.vm, k.vm, k0.sched.procs@);
    }
    if a == 0 {
        return None;
    }
    let ghost k1 = *k;
    let ghost blocks = k0.heap.blocks();
    let ghost i = heap::first_fit(blocks, KSTACK_SIZE as int, 16, 0);
    proof {
        heap::lemma_pieces(blocks[i], k0.heap.start(), KSTACK_SIZE as int, 16);
        assert(heap::block_ok(blocks[i], k0.heap.start()));
        assert forall|b: int| a <= b < a + KSTACK_SIZE implies !#[trigger] heap::in_free(
            k1.heap.blocks(),
            b,
        ) by {
            lemma_payload_clear(
                k1.vm.mem@,
                k1.heap.blocks(),
                k0.heap.start(),
                a as int,
                b,
            );
        }
    }
    zero(k, a, KSTACK_SIZE);
    proof {
        physmem::lemma_unaligned(k.vm.mem);
        assert forall|b: int| !heap::in_free(blocks, b) implies #[trigger] k.vm.mem@[b]
            == k0.vm.mem@[b] by {
            heap::lemma_carved_from(blocks, k0.heap.start(), i, KSTACK_SIZE as int, 16, b);
        }
    }
    Some(a)
}

/// The bytes of a live allocation lie in no free block.
proof fn lemma_payload_clear(
    m: Map<int, u64>,
    blocks: Seq<(int, int)>,
    lo: int,
    user: int,
    b: int,
)
    requires
        heap::live(m, blocks, lo, user),
        m[user - 16] <= b < m[user - 16] + m[user - 8],
    ensures
        !heap::in_free(blocks, b),
{
    if heap::in_free(blocks, b) {
        let i = choose|i: int|
            0 <= i < blocks.len() && (#[trigger] blocks[i]).0 <= b < blocks[i].0 + blocks[i].1;
        assert(blocks[i].0 <= b);
    }
}

/// Give a kernel stack back to the heap.
pub fn free_kstack(k: &mut Kernel, kstack: u64)
    requires
        old(k).wf(),
        heap::live(
            old(k).vm.mem@,
            old(k).heap.blocks(),
            old(k).heap.start(),
            kstack as int,
        ),
    ensures
        final(k).wf(),
        heap_only(*old(k), *final(k)),
        ({
            let start = old(k).vm.mem@[kstack - 16] as int;
            let size = old(k).vm.mem@[kstack - 8] as int;
            let blocks = old(k).heap.blocks();
            &&& final(k).heap.blocks() == heap::merged(
                blocks,
                heap::position(blocks, start, 0),
                start,
                size,
            )
            &&& forall|a: int|
                !heap::in_free(blocks, a) && !(start <= a < start + size)
                    ==> #[trigger] final(k).vm.mem@[a] == old(k).vm.mem@[a]
        }),
{
    let ghost k0 = *k;
    heap::dealloc_inner(&mut k.heap, &mut k.vm.mem, kstack);
    proof {
        assert forall|b: int| k0.vm.start() <= b implies #[trigger] k.vm.mem@[b]
            == k0.vm.mem@[b] by {
            if heap::in_free(k0.heap.blocks(), b) {
                lemma_in_heap(k0.heap, k0.vm.mem@, b);
            }
        }
        uproc::lemma_low_spaces(k0.vm, k.vm, k0.sched.procs@);
    }
}

} // verus!
