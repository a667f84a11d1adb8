use osmium::heap;
use osmium::heap::Heap;
use osmium::kalloc;
use osmium::kalloc::FreeList;
use osmium::memlayout::KernelImage;
use osmium::physmem::Memory;
use osmium::riscv::Hart;
use osmium::vm;
use osmium::vm::Vm;

const ALLOC_START: u64 = 0x80a4_0000;

fn image() -> KernelImage {
    KernelImage {
        kernel_start: 0x8020_0000,
        text_start: 0x8020_0000,
        text_end: 0x8021_0000,
        user_start: 0x8021_0000,
        user_end: 0x8021_2000,
        rodata_start: 0x8021_2000,
        rodata_end: 0x8021_8000,
        data_start: 0x8021_8000,
        kernel_end: 0x8024_0000,
    }
}

/// An allocator with the topmost `n` pages.
fn pages(n: u64) -> (FreeList, Memory) {
    let mut mem = Memory::new();
    let mut fl = FreeList::new(&image());
    kalloc::init(&mut fl, &mut mem, Some((ALLOC_START, 0x8800_0000 - n * 4096)));
    (fl, mem)
}

#[test]
fn pages_are_zeroed_and_distinct() {
    let (mut fl, mut mem) = pages(3);
    assert_eq!(kalloc::free_pages(&fl, &mem), 3);
    let a = kalloc::alloc_page(&mut fl, &mut mem).unwrap();
    let b = kalloc::alloc_page(&mut fl, &mut mem).unwrap();
    let c = kalloc::alloc_page(&mut fl, &mut mem).unwrap();
    assert_eq!((a, b, c), (0x87ff_f000, 0x87ff_e000, 0x87ff_d000));
    assert_eq!(kalloc::alloc_page(&mut fl, &mut mem), None);
    for i in 0..512 {
        assert_eq!(mem.read(a + 8 * i), 0);
    }
    mem.write(b + 8, 1);
    kalloc::free(&mut fl, &mut mem, b);
    // Poisoned, but for the link in the first word.
    assert_eq!(mem.read(b), 0);
    assert_eq!(mem.read(b + 8), kalloc::POISON);
    assert_eq!(mem.read(b + 4088), 0x5a5a_5a5a_5a5a_5a5a);
    assert_eq!(kalloc::free_pages(&fl, &mem), 1);
    assert_eq!(kalloc::alloc_page(&mut fl, &mut mem), Some(b));
    assert_eq!(mem.read(b + 8), 0);
}

#[test]
fn reserved_pages_stay_off_the_list() {
    let mut mem = Memory::new();
    let mut fl = FreeList::new(&image());
    // One byte at the end of one page and one byte at the start of another.
    kalloc::init(&mut fl, &mut mem, Some((0x8100_0fff, 0x8100_2001)));
    assert_eq!(kalloc::free_pages(&fl, &mem), 30144 - 3);
    let mut seen = 0;
    while let Some(p) = kalloc::alloc_page(&mut fl, &mut mem) {
        assert!(p >= ALLOC_START && p % 4096 == 0);
        assert!(p < 0x8100_0000 || 0x8100_3000 <= p);
        seen += 1;
    }
    assert_eq!(seen, 30141);
}

#[test]
fn bytes_of_memory() {
    let mut mem = Memory::new();
    mem.write(0x8000_0000, 0x0807_0605_0403_0201);
    assert_eq!(mem.read_byte(0x8000_0000), 1);
    assert_eq!(mem.read_byte(0x8000_0007), 8);
    mem.write_byte(0x8000_0003, 0xff);
    assert_eq!(mem.read(0x8000_0000), 0x0807_0605_ff03_0201);
    mem.fill_page(0x8000_1000, 7);
    mem.copy_page(0x8000_1000, 0x87ff_f000);
    assert_eq!(mem.read(0x87ff_fff8), 7);
    assert_eq!(mem.read(0x8000_0ff8), 0);
}

#[test]
fn mapped_pages_translate() {
    let (mut fl, mut mem) = pages(10);
    let root = kalloc::alloc_page(&mut fl, &mut mem).unwrap();
    assert_eq!(vm::missing_tables(&mem, root, 0x1234_5000), 2);
    // The range spans two level-0 tables.
    let va = 0x1fe000;
    vm::map_pages(&mut fl, &mut mem, root, va, 0x8100_0000, 0x4000, vm::PTE_R | vm::PTE_W);
    assert_eq!(kalloc::free_pages(&fl, &mem), 6);
    for i in 0..4 {
        let (pa, e) = vm::translate(&mem, root, va + i * 4096 + 12).unwrap();
        assert_eq!(pa, 0x8100_000c + i * 4096);
        assert_eq!(e & 0x3ff, 0xc7);
    }
    assert_eq!(vm::translate(&mem, root, va - 1), None);
    assert_eq!(vm::translate(&mem, root, va + 0x4000), None);
    assert_eq!(vm::missing_tables(&mem, root, 0), 0);
    assert_eq!(vm::missing_tables(&mem, root, 0x40_0000), 1);
    vm::protect(&mut mem, root, va + 4096, 8192, vm::PTE_R);
    let bits: Vec<u64> = (0..4)
        .map(|i| vm::translate(&mem, root, va + i * 4096).unwrap().1 & 0x1e)
        .collect();
    assert_eq!(bits, vec![6, 2, 2, 6]);
    assert_eq!(vm::translate(&mem, root, va + 4096).unwrap().0, 0x8100_1000);
}

#[test]
fn user_tables_share_the_kernel_map() {
    let mut v = Vm::new(image(), Memory::new(), Some((ALLOC_START, 0x8800_0000 - 100 * 4096)));
    vm::init(&mut v);
    let free = kalloc::free_pages(&v.kmem, &v.mem);
    assert_eq!(free, 100 - vm::map_cost(&image()));
    let u = vm::make_user_table(&mut v);
    assert_ne!(u, vm::kernel_root(&v));
    assert_eq!(kalloc::free_pages(&v.kmem, &v.mem), free - 1);
    for va in [0x8020_0000, 0x8021_8008, 0x1000_0000, 0x4000_0000, 0x0c00_0000, 0x8765_4321] {
        assert_eq!(
            vm::translate(&v.mem, u, va),
            vm::translate(&v.mem, vm::kernel_root(&v), va)
        );
    }
    assert_eq!(vm::switch_to(u), 0x8000_0000_0000_0000 | (u >> 12));
    assert_eq!(vm::init_hart(&v), 0x8000_0000_0000_0000 | (v.root >> 12));
    let mut hart = Hart::new();
    hart.satp = vm::init_hart(&v);
    assert_ne!(hart.satp, vm::switch_to(u));
    vm::free_user_table(&mut v, &hart, u);
    assert_eq!(kalloc::free_pages(&v.kmem, &v.mem), free);
}

fn fresh_heap() -> (Heap, Memory) {
    let mut mem = Memory::new();
    let mut h = Heap::new(&image());
    heap::init(&mut h, &mut mem);
    (h, mem)
}

#[test]
fn heap_is_first_fit() {
    let (mut h, mut mem) = fresh_heap();
    assert_eq!(heap::free_bytes(&h, &mem), 0x80_0000);
    let a = heap::alloc_inner(&mut h, &mut mem, 1, 1);
    let b = heap::alloc_inner(&mut h, &mut mem, 100, 8);
    let c = heap::alloc_inner(&mut h, &mut mem, 32, 8);
    assert_eq!(a, 0x8024_0010);
    assert_eq!(b, a + 32);
    assert_eq!(c, b + 128);
    assert_eq!(heap::free_bytes(&h, &mem), 0x80_0000 - 32 - 128 - 48);
    heap::dealloc_inner(&mut h, &mut mem, b);
    // A smaller request fits into the hole, a larger one does not.
    let d = heap::alloc_inner(&mut h, &mut mem, 40, 8);
    assert_eq!(d, b);
    let e = heap::alloc_inner(&mut h, &mut mem, 112, 8);
    assert!(e > c);
    heap::dealloc_inner(&mut h, &mut mem, a);
    heap::dealloc_inner(&mut h, &mut mem, e);
    heap::dealloc_inner(&mut h, &mut mem, c);
    heap::dealloc_inner(&mut h, &mut mem, d);
    assert_eq!(heap::free_bytes(&h, &mem), 0x80_0000);
    // Coalesced: the whole region can be had again.
    let all = heap::alloc_inner(&mut h, &mut mem, 0x80_0000 - 16, 16);
    assert_eq!(all, a);
    assert_eq!(heap::free_bytes(&h, &mem), 0);
    assert_eq!(heap::alloc_inner(&mut h, &mut mem, 1, 1), 0);
}

#[test]
fn heap_honours_alignment() {
    let (mut h, mut mem) = fresh_heap();
    let a = heap::alloc_inner(&mut h, &mut mem, 10, 4096);
    assert_eq!(a, 0x8024_1000);
    // What is left in front can still be used.
    let b = heap::alloc_inner(&mut h, &mut mem, 10, 8);
    assert_eq!(b, 0x8024_0010);
    assert_eq!(heap::alloc_inner(&mut h, &mut mem, 0x80_0000, 8), 0);
    heap::dealloc_inner(&mut h, &mut mem, a);
    heap::dealloc_inner(&mut h, &mut mem, b);
    assert_eq!(heap::free_bytes(&h, &mem), 0x80_0000);
}
