use osmium::boot;
use osmium::boot::{BootError, Machine, Report, Start, Threads};
use osmium::fs;
use osmium::fs::Fs;
use osmium::heap;
use osmium::heap::Heap;
use osmium::kalloc;
use osmium::kernel;
use osmium::kernel::Kernel;
use osmium::memlayout;
use osmium::memlayout::KernelImage;
use osmium::physmem::Memory;
use osmium::proc;
use osmium::proc::State;
use osmium::riscv::Hart;
use osmium::user;
use osmium::user::{Image, Images};
use osmium::vm;
use osmium::vm::Vm;

const ALLOC_START: u64 = 0x80a4_0000;
const PHYS_TOP: u64 = 0x8800_0000;

fn image() -> KernelImage {
    KernelImage {
        kernel_start: 0x8020_0000,
        text_start: 0x8020_0000,
        text_end: 0x8021_0000,
        user_start: 0x8021_0000,
        user_end: 0x8021_2000,
        rodata_start: 0x8021_2000,
        rodata_end: 0x8021_8000,
        data_start: 0x8021_8000,
        kernel_end: 0x8024_0000,
    }
}

fn program(n: u64) -> Image {
    Image { start: 0x8021_0000 + 128 * n, end: 0x8021_0000 + 128 * n + 100 }
}

fn images() -> Images {
    Images {
        greeter: program(0),
        trespasser: program(1),
        badsys: program(2),
        uname: program(3),
        catfile: program(4),
        heapgrow: program(5),
        forker: program(6),
        forkexec: program(7),
        echoline: program(8),
    }
}

/// The header of a device tree of `size` bytes.
fn header(size: u32) -> [u8; 8] {
    let s = size.to_be_bytes();
    [0xd0, 0x0d, 0xfe, 0xed, s[0], s[1], s[2], s[3]]
}

/// A machine whose device tree leaves only the topmost `pages` pages free.
fn machine(pages: u64) -> Machine {
    Machine {
        image: image(),
        images: images(),
        mem: Memory::new(),
        dtb: ALLOC_START,
        header: header((PHYS_TOP - ALLOC_START - pages * 4096) as u32),
        vector: 0x8020_0100,
        trampoline: 0x8020_0200,
        input_chan: 0x8023_0000,
    }
}

fn booted(pages: u64) -> (Kernel, Report) {
    match boot::boot(machine(pages)) {
        Ok(r) => r,
        Err(e) => panic!("boot failed: {:?}", e),
    }
}

#[test]
fn device_tree_is_reserved() {
    assert_eq!(
        boot::dtb_reserved(0x8220_0000, &header(0x1234)),
        Some((0x8220_0000, 0x8220_1234))
    );
    // Below DRAM, or without the magic number, there is nothing to reserve.
    assert_eq!(boot::dtb_reserved(0x1000, &header(0x1234)), None);
    assert_eq!(boot::dtb_reserved(0x8220_0000, &[0xd0, 0x0d, 0xfe, 0xee, 0, 0, 0x12, 0x34]), None);
}

#[test]
fn boot_without_device_tree() {
    let mut m = machine(0);
    m.header = [0; 8];
    let (k, report) = match boot::boot(m) {
        Ok(r) => r,
        Err(_) => panic!("boot failed"),
    };
    assert!(report.tested);
    assert_eq!(report.reserved, None);
    assert_eq!(report.free_pages, 30144);
    // The self-test hands the two topmost pages back in swapped order.
    assert_eq!(report.root, 0x87ff_e000);
    assert_eq!(report.heap_free, 8192 * 1024);
    assert_eq!(report.files, 3);
    assert_eq!(k.hart.satp, 0x8000_0000_0000_0000 | (0x87ff_e000 >> 12));
    assert_eq!(k.hart.sie, 0x222);
    assert_eq!(k.hart.stvec, 0x8020_0100);
    assert_eq!(k.hart.sscratch, 0);
    assert_eq!(k.programs.len(), 9);
    assert_eq!(k.programs[0].name, "greeter");
    assert_eq!(k.programs[0].addr, user::greeter_addr(&images()));
    assert_eq!(k.programs[1].addr, user::trespasser_addr(&images()));
    assert_eq!(k.programs[0].len, 100);
}

#[test]
fn boot_reports_what_is_wrong() {
    let mut m = machine(200);
    m.image.text_end = 0x8021_0800;
    assert!(matches!(boot::boot(m), Err(BootError::BadImage)));

    let mut m = machine(200);
    m.images.forker = Image { start: 0x8021_0000, end: 0x8021_0000 };
    assert!(matches!(boot::boot(m), Err(BootError::BadProgram)));

    let mut m = machine(200);
    m.images.uname = Image { start: 0x8021_0000, end: 0x8120_0000 };
    assert!(matches!(boot::boot(m), Err(BootError::BadProgram)));

    let cost = vm::map_cost(&image());
    assert!(matches!(boot::boot(machine(cost - 1)), Err(BootError::OutOfPages)));
    let (k, report) = booted(cost);
    assert_eq!(report.free_pages, cost);
    assert_eq!(kalloc::free_pages(&k.vm.kmem, &k.vm.mem), 0);
}

#[test]
fn kernel_table_costs_what_it_covers() {
    // Root, two level-1 tables, four level-0 tables for the devices, and one for
    // each 2 MiB of DRAM from 0x8020_0000 on.
    assert_eq!(vm::map_cost(&image()), 7 + 63);
}

#[test]
fn kernel_map_has_least_privilege() {
    let (k, _) = booted(100);
    assert!(boot::vm_self_test(&k.vm.mem, vm::kernel_root(&k.vm), &k.vm.image));
    let root = vm::kernel_root(&k.vm);
    let at = |va: u64| vm::translate(&k.vm.mem, root, va);
    let perm = |va: u64| match at(va) {
        Some((pa, e)) => {
            assert_eq!(pa, va);
            e & 0x1e
        }
        None => 0,
    };
    assert_eq!(perm(0x8020_0ffc), 0x0a);
    assert_eq!(perm(0x8021_0000), 0x02);
    assert_eq!(perm(0x8021_2004), 0x02);
    assert_eq!(perm(0x8021_8000), 0x06);
    assert_eq!(perm(0x8024_0000), 0x06);
    assert_eq!(perm(0x87ff_ffff), 0x06);
    assert_eq!(perm(0x1000_0005), 0x06);
    assert_eq!(perm(0x0c20_1004), 0x06);
    assert_eq!(perm(0x0010_0000), 0x06);
    assert!(at(0x4000_0000).is_none());
    assert!(at(0x8800_0000).is_none());
    assert!(at(0x801f_f000).is_none());
    assert!(at(0).is_none());
}

#[test]
fn self_tests_pass_and_leave_no_trace() {
    let mut v = Vm::new(image(), Memory::new(), Some((ALLOC_START, PHYS_TOP - 4 * 4096)));
    assert_eq!(kalloc::free_pages(&v.kmem, &v.mem), 4);
    assert!(boot::kalloc_self_test(&mut v));
    assert_eq!(kalloc::free_pages(&v.kmem, &v.mem), 4);
    assert_eq!(kalloc::alloc_page(&mut v.kmem, &mut v.mem), Some(0x87ff_e000));
    assert_eq!(kalloc::alloc_page(&mut v.kmem, &mut v.mem), Some(0x87ff_f000));
    assert_eq!(kalloc::alloc_page(&mut v.kmem, &mut v.mem), Some(0x87ff_d000));

    let mut mem = Memory::new();
    let mut h = Heap::new(&image());
    heap::init(&mut h, &mut mem);
    assert!(boot::heap_self_test(&mut h, &mut mem));
    assert_eq!(heap::free_bytes(&h, &mem), 8192 * 1024);
}

#[test]
fn self_tests_can_fail() {
    // A table whose text is writable.
    let (mut k, _) = booted(100);
    let root = vm::kernel_root(&k.vm);
    vm::protect(&mut k.vm.mem, root, 0x8020_0000, 0x1000, 0x0e);
    assert!(!boot::vm_self_test(&k.vm.mem, root, &k.vm.image));

    // A heap with no room for the vector.
    let mut mem = Memory::new();
    let mut h = Heap::new(&image());
    heap::init(&mut h, &mut mem);
    let most = heap::alloc_inner(&mut h, &mut mem, 8192 * 1024 - 4096, 16);
    assert_ne!(most, 0);
    let left = heap::free_bytes(&h, &mem);
    assert!(!boot::heap_self_test(&mut h, &mut mem));
    assert_eq!(heap::free_bytes(&h, &mem), left);

    // A filesystem with no files.
    let mut hart = Hart::new();
    let mut files = Fs::new();
    assert!(!boot::fs_self_test(&mut files, &mut hart));
    fs::init(&mut files, &mut hart);
    assert!(boot::fs_self_test(&mut files, &mut hart));
}

#[test]
fn kernel_stacks_come_from_the_heap() {
    let (mut k, _) = booted(100);
    let a = kernel::new_kstack(&mut k).unwrap();
    let b = kernel::new_kstack(&mut k).unwrap();
    assert_eq!(a, 0x8024_0010);
    assert_eq!(b, a + 0x4000 + 16);
    assert_eq!(heap::free_bytes(&k.heap, &k.vm.mem), 8192 * 1024 - 2 * (0x4000 + 16));
    k.vm.mem.write(b + 8, 7);
    kernel::free_kstack(&mut k, a);
    kernel::free_kstack(&mut k, b);
    assert_eq!(heap::free_bytes(&k.heap, &k.vm.mem), 8192 * 1024);
    let c = kernel::new_kstack(&mut k).unwrap();
    let d = kernel::new_kstack(&mut k).unwrap();
    assert_eq!((c, d), (a, b));
    assert_eq!(k.vm.mem.read(d + 8), 0);
    let mut more = 0;
    while kernel::new_kstack(&mut k).is_some() {
        more += 1;
    }
    assert_eq!(more, 8192 * 1024 / (0x4000 + 16) - 2);
}

fn threads() -> Threads {
    Threads {
        ping: 1,
        pong: 2,
        busy0: 3,
        busy1: 4,
        monitor: 5,
        producer: 6,
        consumer: 7,
        init: 8,
    }
}

#[test]
fn workload_starts_in_order() {
    let (mut k, _) = booted(300);
    let starts = boot::boot_workload(&threads());
    assert_eq!(starts.len(), 16);
    let mut stacks: Vec<u64> = Vec::new();
    for _ in 0..16 {
        stacks.push(kernel::new_kstack(&mut k).unwrap());
    }
    let free = kalloc::free_pages(&k.vm.kmem, &k.vm.mem);
    assert_eq!(boot::start_all(&mut k, &starts, &stacks), Ok(()));
    // Each user program takes a root, a level-1 table, two level-0 tables, one
    // page of code and one of stack.
    assert_eq!(kalloc::free_pages(&k.vm.kmem, &k.vm.mem), free - 8 * 6);
    let list = proc::process_list(&k.sched, &mut k.hart);
    let names: Vec<&str> = list.iter().map(|p| p.1).collect();
    assert_eq!(
        names,
        vec![
            "ping", "pong", "busy0", "busy1", "monitor", "producer", "consumer", "u-greeter",
            "u-trespasser", "u-badsys", "u-uname", "u-catfile", "u-heapgrow", "u-forker",
            "u-forkexec", "init"
        ]
    );
    for (i, p) in list.iter().enumerate() {
        assert_eq!(p.0, i as u64 + 1);
        assert_eq!(p.2, State::Runnable);
    }
    let ping = k.sched.procs[0].unwrap();
    assert_eq!(ping.context.ra, 0x8020_0200);
    assert_eq!(ping.context.sp, stacks[0] + 0x4000);
    assert_eq!(ping.page_table, k.vm.root);
    let greeter = k.sched.procs[7].unwrap();
    assert_eq!(greeter.user_entry, 0x4000_0000);
    assert_eq!(greeter.user_sp, 0x4100_0000);
    assert_ne!(greeter.page_table, k.vm.root);
    assert!(!boot::only_left(&list, "init"));
    assert!(boot::only_left(&list[15..].to_vec(), "init"));
    assert!(boot::only_left(&Vec::new(), "init"));
}

#[test]
fn workload_leaves_images_and_device_tree_alone() {
    let (mut k, _) = booted(300);
    let greeter = user::greeter_addr(&images());
    for i in 0..100 {
        k.vm.mem.write_byte(greeter + i, i as u8 + 1);
    }
    let starts = boot::boot_workload(&threads());
    let stacks: Vec<u64> = vec![0x8030_0000; 16];
    assert_eq!(boot::start_all(&mut k, &starts, &stacks), Ok(()));
    // The image is what it was, and the process has a copy of it.
    let table = k.sched.procs[7].unwrap().page_table;
    let (copy, _) = vm::translate(&k.vm.mem, table, 0x4000_0000).unwrap();
    assert_ne!(copy, greeter);
    for i in 0..100 {
        assert_eq!(k.vm.mem.read_byte(greeter + i), i as u8 + 1);
        assert_eq!(k.vm.mem.read_byte(copy + i), i as u8 + 1);
    }
    // No page of the device tree is ever handed out.
    let mut free = 0;
    while let Some(page) = kalloc::alloc_page(&mut k.vm.kmem, &mut k.vm.mem) {
        assert!(page >= PHYS_TOP - 300 * 4096);
        free += 1;
    }
    assert_eq!(free, 300 - vm::map_cost(&image()) - 8 * 6);
}

#[test]
fn workload_stops_when_it_cannot_go_on() {
    let cost = vm::map_cost(&image());
    let (mut k, _) = booted(cost + 11);
    let starts = boot::boot_workload(&threads());
    let stacks: Vec<u64> = vec![0x8030_0000; 16];
    // Pages for the greeter, and five of the trespasser's six.
    assert_eq!(boot::start_all(&mut k, &starts, &stacks), Err(8));
    assert_eq!(k.sched.procs.len(), 8);

    let (mut k, _) = booted(200);
    let starts = vec![
        Start::Thread { name: "one", entry: 1 },
        Start::User { name: "two", program: "nonesuch" },
    ];
    assert_eq!(boot::start_all(&mut k, &starts, &stacks), Err(1));
    assert_eq!(k.sched.procs.len(), 1);
}

#[test]
fn image_shape_is_checked() {
    assert!(image().check());
    let mut i = image();
    i.kernel_end = 0x8780_0000;
    assert!(!i.check());
    let mut i = image();
    i.rodata_end = i.rodata_start;
    assert!(!i.check());
    assert_eq!(memlayout::heap_start(&image()), 0x8024_0000);
    assert_eq!(memlayout::alloc_start(&image()), ALLOC_START);
}
