use osmium::boot;
use osmium::boot::{Machine, Report};
use osmium::console;
use osmium::kalloc;
use osmium::kernel;
use osmium::kernel::Kernel;
use osmium::memlayout::KernelImage;
use osmium::physmem::Memory;
use osmium::proc;
use osmium::proc::{First, State};
use osmium::riscv;
use osmium::spinlock;
use osmium::syscall;
use osmium::syscall::{Action, Pending};
use osmium::timer;
use osmium::trap;
use osmium::trap::{Claimed, TrapAction, TrapFrame};
use osmium::uproc::Pick;
use osmium::user;
use osmium::user::{Image, Images};
use osmium::usercopy;
use osmium::vm;

const ALLOC_START: u64 = 0x80a4_0000;
const PHYS_TOP: u64 = 0x8800_0000;

fn image() -> KernelImage {
    KernelImage {
        kernel_start: 0x8020_0000,
        text_start: 0x8020_0000,
        text_end: 0x8021_0000,
        user_start: 0x8021_0000,
        user_end: 0x8021_2000,
        rodata_start: 0x8021_2000,
        rodata_end: 0x8021_8000,
        data_start: 0x8021_8000,
        kernel_end: 0x8024_0000,
    }
}

fn program(n: u64) -> Image {
    Image { start: 0x8021_0000 + 128 * n, end: 0x8021_0000 + 128 * n + 100 }
}

fn images() -> Images {
    Images {
        greeter: program(0),
        trespasser: program(1),
        badsys: program(2),
        uname: program(3),
        catfile: program(4),
        heapgrow: program(5),
        forker: program(6),
        forkexec: program(7),
        echoline: program(8),
    }
}

/// The header of a device tree of `size` bytes.
fn header(size: u32) -> [u8; 8] {
    let s = size.to_be_bytes();
    [0xd0, 0x0d, 0xfe, 0xed, s[0], s[1], s[2], s[3]]
}

/// A machine whose device tree leaves only the topmost `pages` pages free.
fn machine(pages: u64) -> Machine {
    Machine {
        image: image(),
        images: images(),
        mem: Memory::new(),
        dtb: ALLOC_START,
        header: header((PHYS_TOP - ALLOC_START - pages * 4096) as u32),
        vector: 0x8020_0100,
        trampoline: 0x8020_0200,
        input_chan: 0x8023_0000,
    }
}

fn booted(pages: u64) -> (Kernel, Report) {
    match boot::boot(machine(pages)) {
        Ok(r) => r,
        Err(e) => panic!("boot failed: {:?}", e),
    }
}

const ERR: u64 = u64::MAX;
const STACK: u64 = 0x40ff_f000;
const TEXT: u64 = 0x4000_0000;
const HEAP: u64 = 0x4200_0000;

fn frame() -> TrapFrame {
    TrapFrame {
        ra: 0,
        sp: 0x4100_0000,
        gp: 0,
        tp: 0,
        t0: 0,
        t1: 0,
        t2: 0,
        s0: 0,
        s1: 0,
        a0: 0,
        a1: 0,
        a2: 0,
        a3: 0,
        a4: 0,
        a5: 0,
        a6: 0,
        a7: 0,
        s2: 0,
        s3: 0,
        s4: 0,
        s5: 0,
        s6: 0,
        s7: 0,
        s8: 0,
        s9: 0,
        s10: 0,
        s11: 0,
        t3: 0,
        t4: 0,
        t5: 0,
        t6: 0,
        sepc: TEXT + 8,
        sstatus: riscv::SSTATUS_SPIE,
    }
}

/// Let the scheduler pick a thread; its slot.
fn pick(k: &mut Kernel) -> usize {
    assert_eq!(k.hart.satp, vm::switch_to(k.vm.root));
    let (pick, _) = proc::scheduler(&mut k.sched, &mut k.hart, &mut k.vm);
    match pick {
        Pick::Run { slot, satp } => {
            // The thread's own table is the active one.
            assert_eq!(satp, vm::switch_to(k.sched.procs[slot].unwrap().page_table));
            assert_eq!(k.hart.satp, satp);
            slot
        }
        Pick::Idle => panic!("nothing to run"),
    }
}

/// Back in the scheduler after a handoff.
fn give_up(k: &mut Kernel) {
    let satp = proc::scheduler_return(&mut k.sched, &mut k.hart, &k.vm);
    assert_eq!(satp, 0x8000_0000_0000_0000 | (k.vm.root >> 12));
    assert_eq!(k.hart.noff, 0);
}

/// Pick the next thread and let it enter its code.
fn enter(k: &mut Kernel) -> (usize, First) {
    let slot = pick(k);
    let first = proc::thread_entry(&k.sched, &mut k.hart);
    (slot, first)
}

fn start(k: &mut Kernel, name: &'static str, program: &str) -> u64 {
    let p = kernel::program(&k.programs, program).unwrap();
    let stack = kernel::new_kstack(k).unwrap();
    user::start(k, name, &p, stack).unwrap()
}

/// A kernel in which one user process runs.
fn running(pages: u64) -> Kernel {
    let (mut k, _) = booted(pages);
    start(&mut k, "u-greeter", "greeter");
    let (slot, first) = enter(&mut k);
    assert_eq!(slot, 0);
    assert!(matches!(first, First::User(_)));
    k
}

fn root(k: &Kernel) -> u64 {
    k.sched.procs[k.sched.current.unwrap()].unwrap().page_table
}

fn poke(k: &mut Kernel, ptr: u64, bytes: &[u8]) {
    let r = root(k);
    let n = usercopy::copy_to_user(&mut k.vm, &mut k.hart, r, ptr, bytes);
    assert_eq!(n, Some(bytes.len() as u64));
}

fn peek(k: &mut Kernel, ptr: u64, len: u64) -> Vec<u8> {
    let r = root(k);
    usercopy::copy_from_user(&k.vm, &mut k.hart, r, ptr, len).unwrap()
}

fn call(k: &mut Kernel, f: &mut TrapFrame, nr: u64, a0: u64, a1: u64, a2: u64) -> Action {
    f.a7 = nr;
    f.a0 = a0;
    f.a1 = a1;
    f.a2 = a2;
    let pc = f.sepc;
    let stack = 0x8070_0000;
    match trap::kerneltrap(k, f, trap::EXC_ECALL_USER, 0, 0, stack) {
        TrapAction::Syscall(a) => {
            assert_eq!(f.sepc, pc + 4);
            a
        }
        _ => panic!("not a syscall"),
    }
}

/// A syscall that returns at once; what it returns.
fn value(k: &mut Kernel, nr: u64, a0: u64, a1: u64, a2: u64) -> u64 {
    let mut f = frame();
    match call(k, &mut f, nr, a0, a1, a2) {
        Action::Return => f.a0,
        _ => panic!("did not return"),
    }
}

#[test]
fn process_starts_in_its_own_space() {
    let (mut k, _) = booted(200);
    let free = kalloc::free_pages(&k.vm.kmem, &k.vm.mem);
    for i in 0..100 {
        k.vm.mem.write_byte(0x8021_0000 + i, i as u8 + 1);
    }
    let pid = start(&mut k, "u-greeter", "greeter");
    assert_eq!(pid, 1);
    assert_eq!(kalloc::free_pages(&k.vm.kmem, &k.vm.mem), free - 6);
    let (slot, first) = enter(&mut k);
    assert_eq!(slot, 0);
    match first {
        First::User(e) => assert_eq!(e.sp, 0x4100_0000),
        _ => panic!("no user entry"),
    }
    assert_eq!(k.hart.sepc, TEXT);
    assert_eq!(k.hart.sscratch, k.sched.procs[0].unwrap().kstack_top);
    assert_eq!(k.hart.sstatus & riscv::SSTATUS_SPP, 0);
    assert_eq!(k.hart.sstatus & riscv::SSTATUS_SPIE, riscv::SSTATUS_SPIE);
    assert!(!riscv::intr_get(&k.hart));
    // The image is at the entry point, zero behind its end.
    let code = peek(&mut k, TEXT, 104);
    for i in 0..100 {
        assert_eq!(code[i], i as u8 + 1);
    }
    assert_eq!(&code[100..], &[0, 0, 0, 0]);
    // Code cannot be written, the stack can.
    let r = root(&k);
    assert_eq!(usercopy::copy_to_user(&mut k.vm, &mut k.hart, r, TEXT, &[0]), None);
    poke(&mut k, 0x40ff_fffc, b"word");
    assert_eq!(peek(&mut k, 0x40ff_fffc, 4), b"word".to_vec());
    // The kernel map is there, and not for user mode.
    let (pa, e) = vm::translate(&k.vm.mem, r, 0x8020_0000).unwrap();
    assert_eq!(pa, 0x8020_0000);
    assert_eq!(e & vm::PTE_U, 0);
    assert_eq!(usercopy::copy_from_user(&k.vm, &mut k.hart, r, 0x8020_0000, 8), None);
}

#[test]
fn write_prints_text_of_the_process() {
    let mut k = running(200);
    poke(&mut k, STACK, b"hello\n");
    let mut f = frame();
    match call(&mut k, &mut f, syscall::SYS_WRITE, STACK, 6, 0) {
        Action::Print(s) => assert_eq!(s, "hello\n"),
        _ => panic!("not printed"),
    }
    assert_eq!(f.a0, 6);
    // Nothing at all is text as well.
    let mut f = frame();
    match call(&mut k, &mut f, syscall::SYS_WRITE, STACK, 0, 0) {
        Action::Print(s) => assert_eq!(s, ""),
        _ => panic!("not printed"),
    }
    assert_eq!(f.a0, 0);
}

#[test]
fn hostile_arguments_are_rejected() {
    let mut k = running(200);
    poke(&mut k, STACK, &[0xff, 0xfe]);
    let w = syscall::SYS_WRITE;
    // Kernel memory, unmapped memory, a range that leaves the stack page, one
    // that wraps, one past the address space, one too long, one that is no text.
    assert_eq!(value(&mut k, w, 0x8020_0000, 8, 0), ERR);
    assert_eq!(value(&mut k, w, 0x5000_0000, 8, 0), ERR);
    assert_eq!(value(&mut k, w, 0x40ff_fff8, 16, 0), ERR);
    assert_eq!(value(&mut k, w, u64::MAX - 3, 8, 0), ERR);
    assert_eq!(value(&mut k, w, 0x3f_ffff_fff8, 16, 0), ERR);
    assert_eq!(value(&mut k, w, STACK, 1025, 0), ERR);
    assert_eq!(value(&mut k, w, STACK, 2, 0), ERR);
    // The other direction, and descriptors nobody opened.
    assert_eq!(value(&mut k, syscall::SYS_UNAME, 0x8024_0000, 21, 0), ERR);
    assert_eq!(value(&mut k, syscall::SYS_UNAME, TEXT, 21, 0), ERR);
    assert_eq!(value(&mut k, syscall::SYS_FREAD, 0, STACK, 8), ERR);
    assert_eq!(value(&mut k, syscall::SYS_FREAD, u64::MAX, STACK, 8), ERR);
    assert_eq!(value(&mut k, syscall::SYS_CLOSE, 99, 0, 0), ERR);
    assert_eq!(value(&mut k, syscall::SYS_OPEN, STACK, 0, 0), ERR);
    assert_eq!(value(&mut k, syscall::SYS_EXEC, 0, 4, 0), ERR);
    assert_eq!(value(&mut k, syscall::SYS_SBRK, u64::MAX, 0, 0), ERR);
    let mut f = frame();
    match call(&mut k, &mut f, 77, 0, 0, 0) {
        Action::Unknown { pid, number } => assert_eq!((pid, number), (1, 77)),
        _ => panic!("known"),
    }
    assert_eq!(f.a0, ERR);
}

#[test]
fn uname_and_getpid() {
    let mut k = running(200);
    assert_eq!(value(&mut k, syscall::SYS_GETPID, 0, 0, 0), 1);
    assert_eq!(value(&mut k, syscall::SYS_UNAME, STACK, 100, 0), 21);
    assert_eq!(peek(&mut k, STACK, 21), b"osmium 0.1.0 riscv64\n".to_vec());
    poke(&mut k, STACK, &[0; 21]);
    assert_eq!(value(&mut k, syscall::SYS_UNAME, STACK, 6, 0), 6);
    assert_eq!(peek(&mut k, STACK, 8), b"osmium\0\0".to_vec());
}

#[test]
fn files_are_read_through_descriptors() {
    let mut k = running(200);
    poke(&mut k, STACK, b"motdnonesuch");
    assert_eq!(value(&mut k, syscall::SYS_OPEN, STACK + 4, 8, 0), ERR);
    assert_eq!(value(&mut k, syscall::SYS_OPEN, STACK, 4, 0), 0);
    assert_eq!(value(&mut k, syscall::SYS_OPEN, STACK, 4, 0), 1);
    assert_eq!(value(&mut k, syscall::SYS_FREAD, 0, STACK + 64, 8), 8);
    assert_eq!(peek(&mut k, STACK + 64, 8), b"welcome ".to_vec());
    assert_eq!(value(&mut k, syscall::SYS_FREAD, 0, STACK + 64, 0), 0);
    assert_eq!(value(&mut k, syscall::SYS_FREAD, 0, STACK + 64, 1000), 37);
    assert_eq!(peek(&mut k, STACK + 64, 10), b"to osmium ".to_vec());
    assert_eq!(value(&mut k, syscall::SYS_FREAD, 0, STACK + 64, 1000), 0);
    // The second descriptor has a cursor of its own; a rejected buffer does not
    // move it.
    assert_eq!(value(&mut k, syscall::SYS_FREAD, 1, TEXT, 7), ERR);
    assert_eq!(value(&mut k, syscall::SYS_FREAD, 1, STACK + 64, 7), 7);
    assert_eq!(peek(&mut k, STACK + 64, 7), b"welcome".to_vec());
    assert_eq!(value(&mut k, syscall::SYS_CLOSE, 0, 0, 0), 0);
    assert_eq!(value(&mut k, syscall::SYS_CLOSE, 0, 0, 0), ERR);
    assert_eq!(value(&mut k, syscall::SYS_OPEN, STACK, 4, 0), 0);
    for fd in 2..8 {
        assert_eq!(value(&mut k, syscall::SYS_OPEN, STACK, 4, 0), fd);
    }
    assert_eq!(value(&mut k, syscall::SYS_OPEN, STACK, 4, 0), ERR);
}

#[test]
fn heap_is_paged_in_on_demand() {
    let mut k = running(200);
    let free = kalloc::free_pages(&k.vm.kmem, &k.vm.mem);
    assert_eq!(value(&mut k, syscall::SYS_SBRK, 0, 0, 0), HEAP);
    assert_eq!(value(&mut k, syscall::SYS_SBRK, 0x2800, 0, 0), HEAP);
    assert_eq!(value(&mut k, syscall::SYS_SBRK, 0, 0, 0), HEAP + 0x2800);
    // Nothing is mapped yet.
    assert_eq!(kalloc::free_pages(&k.vm.kmem, &k.vm.mem), free);
    assert_eq!(vm::translate(&k.vm.mem, root(&k), HEAP), None);
    let mut f = frame();
    let act = trap::kerneltrap(&mut k, &mut f, trap::EXC_STORE_PAGE_FAULT, HEAP + 0x27ff, 0, 0);
    assert!(matches!(act, TrapAction::Retry));
    assert_eq!(f.sepc, TEXT + 8);
    // The page, and a level-0 table for it.
    assert_eq!(kalloc::free_pages(&k.vm.kmem, &k.vm.mem), free - 2);
    assert_eq!(peek(&mut k, HEAP + 0x2000, 4096), vec![0; 4096]);
    poke(&mut k, HEAP + 0x2ffe, &[1, 2]);
    let act = trap::kerneltrap(&mut k, &mut f, trap::EXC_LOAD_PAGE_FAULT, HEAP, 0, 0);
    assert!(matches!(act, TrapAction::Retry));
    assert_eq!(kalloc::free_pages(&k.vm.kmem, &k.vm.mem), free - 3);
    // Past the break the fault is fatal, and so is one on a mapped page.
    assert_eq!(value(&mut k, syscall::SYS_SBRK, 0x100_0000, 0, 0), ERR);
    let act = trap::kerneltrap(&mut k, &mut f, trap::EXC_LOAD_PAGE_FAULT, HEAP + 0x2800, 0, 0);
    match act {
        TrapAction::Kill { pid, code, sepc, stval, handoff } => {
            assert_eq!((pid, code, sepc, stval), (1, 13, TEXT + 8, HEAP + 0x2800));
            assert_eq!(handoff.slot, 0);
        }
        _ => panic!("survived"),
    }
    assert_eq!(k.sched.procs[0].unwrap().state, State::Zombie);
}

#[test]
fn heap_fault_without_pages() {
    let cost = vm::map_cost(&image());
    let mut k = running(cost + 7);
    assert_eq!(value(&mut k, syscall::SYS_SBRK, 16, 0, 0), HEAP);
    let mut f = frame();
    // One page is left, and the heap has no level-0 table yet: the process dies,
    // and the page stays free.
    assert_eq!(kalloc::free_pages(&k.vm.kmem, &k.vm.mem), 1);
    let act = call(&mut k, &mut f, syscall::SYS_FORK, 0, 0, 0);
    assert!(matches!(act, Action::OutOfPages));
    assert_eq!(k.sched.procs.len(), 1);
    assert!(!proc::service_page_fault(&k.sched, &mut k.hart, &mut k.vm, HEAP));
    let act = trap::kerneltrap(&mut k, &mut f, trap::EXC_LOAD_PAGE_FAULT, HEAP, 0, 0);
    assert!(matches!(act, TrapAction::Kill { pid: 1, code: 13, stval: HEAP, .. }));
    assert_eq!(k.sched.procs[0].unwrap().state, State::Zombie);
    assert_eq!(kalloc::free_pages(&k.vm.kmem, &k.vm.mem), 1);
    // With a page for the table as well, the fault is served.
    let mut k = running(cost + 8);
    assert_eq!(value(&mut k, syscall::SYS_SBRK, 16, 0, 0), HEAP);
    let act = trap::kerneltrap(&mut k, &mut f, trap::EXC_LOAD_PAGE_FAULT, HEAP, 0, 0);
    assert!(matches!(act, TrapAction::Retry));
    assert_eq!(kalloc::free_pages(&k.vm.kmem, &k.vm.mem), 0);
}

#[test]
fn trespasser_dies_and_the_kernel_goes_on() {
    let mut k = running(200);
    let free = kalloc::free_pages(&k.vm.kmem, &k.vm.mem);
    let mut f = frame();
    let act = trap::kerneltrap(&mut k, &mut f, trap::EXC_LOAD_PAGE_FAULT, 0x8000_0000, 0, 0);
    assert!(matches!(act, TrapAction::Kill { pid: 1, code: 13, stval: 0x8000_0000, .. }));
    assert_eq!(trap::exception_name(13), "load page fault");
    give_up(&mut k);
    let stack = k.sched.procs[0].unwrap().kstack;
    let (next, stacks) = proc::scheduler(&mut k.sched, &mut k.hart, &mut k.vm);
    assert!(matches!(next, Pick::Idle));
    assert_eq!(stacks, vec![stack]);
    assert!(k.sched.procs[0].is_none());
    // Every page is back.
    assert_eq!(kalloc::free_pages(&k.vm.kmem, &k.vm.mem), free + 6);
    // Illegal instructions are no better.
    start(&mut k, "u-badsys", "badsys");
    enter(&mut k);
    let act = trap::kerneltrap(&mut k, &mut f, 2, 0, 0, 0);
    assert!(matches!(act, TrapAction::Kill { pid: 2, code: 2, .. }));
}

#[test]
fn kernel_exceptions_are_reported() {
    let (mut k, _) = booted(100);
    let mut f = frame();
    f.sstatus = riscv::SSTATUS_SPP;
    f.sepc = 0x8020_0004;
    let act = trap::kerneltrap(&mut k, &mut f, trap::EXC_LOAD_PAGE_FAULT, 5, 0, 0);
    assert!(matches!(
        act,
        TrapAction::BadException { code: 13, cause: 13, sepc: 0x8020_0004, stval: 5 }
    ));
    let soft = riscv::SCAUSE_INTERRUPT | trap::IRQ_S_SOFT;
    let act = trap::kerneltrap(&mut k, &mut f, soft, 0, 0, 0);
    assert!(matches!(act, TrapAction::BadInterrupt { cause } if cause == soft));
    // A breakpoint is stepped over: two bytes when compressed, four when not.
    k.vm.mem.write_byte(0x8020_0004, 0x02);
    let act = trap::kerneltrap(&mut k, &mut f, trap::EXC_BREAKPOINT, 0, 0, 0);
    assert!(matches!(act, TrapAction::Breakpoint { at: 0x8020_0004, user: false }));
    assert_eq!(f.sepc, 0x8020_0006);
    k.vm.mem.write_byte(0x8020_0006, 0x73);
    let act = trap::kerneltrap(&mut k, &mut f, trap::EXC_BREAKPOINT, 0, 0, 0);
    assert!(matches!(act, TrapAction::Breakpoint { at: 0x8020_0006, user: false }));
    assert_eq!(f.sepc, 0x8020_000a);
}

#[test]
fn breakpoint_in_user_mode() {
    let (mut k, _) = booted(200);
    k.vm.mem.write_byte(0x8021_0008, 0x73);
    start(&mut k, "u-greeter", "greeter");
    enter(&mut k);
    let mut f = frame();
    let act = trap::kerneltrap(&mut k, &mut f, trap::EXC_BREAKPOINT, 0, 0, 0);
    assert!(matches!(act, TrapAction::Breakpoint { user: true, .. }));
    assert_eq!(f.sepc, TEXT + 12);
}

#[test]
fn fork_duplicates_the_process() {
    let mut k = running(200);
    poke(&mut k, STACK, b"parent");
    value(&mut k, syscall::SYS_SBRK, 4096, 0, 0);
    let mut f = frame();
    trap::kerneltrap(&mut k, &mut f, trap::EXC_STORE_PAGE_FAULT, HEAP, 0, 0);
    poke(&mut k, HEAP, b"heap");
    poke(&mut k, STACK + 100, b"motd");
    assert_eq!(value(&mut k, syscall::SYS_OPEN, STACK + 100, 4, 0), 0);
    let free = kalloc::free_pages(&k.vm.kmem, &k.vm.mem);
    let mut f = frame();
    f.s5 = 0x55;
    assert!(matches!(call(&mut k, &mut f, syscall::SYS_FORK, 0, 0, 0), Action::Return));
    assert_eq!(f.a0, 2);
    // Root, level-1, three level-0 tables; code, stack and heap page.
    assert_eq!(kalloc::free_pages(&k.vm.kmem, &k.vm.mem), free - 8);
    // The parent goes on writing; the child has the old contents.
    poke(&mut k, STACK, b"PARENT");
    assert!(matches!(call(&mut k, &mut f, syscall::SYS_YIELD, 0, 0, 0), Action::Yield(_)));
    give_up(&mut k);
    let (slot, first) = enter(&mut k);
    assert_eq!(slot, 1);
    match first {
        First::Restore(g, top) => {
            assert_eq!(g.a0, 0);
            assert_eq!(g.sepc, TEXT + 12);
            assert_eq!(g.s5, 0x55);
            assert_eq!(top, 0x8070_0000 + 0x4000);
        }
        _ => panic!("not a forked child"),
    }
    assert_eq!(k.sched.procs[1].unwrap().name, "u-fork-child");
    assert_eq!(peek(&mut k, STACK, 6), b"parent".to_vec());
    assert_eq!(peek(&mut k, HEAP, 4), b"heap".to_vec());
    poke(&mut k, HEAP, b"HEAP");
    // The child inherits the break and the open file.
    assert_eq!(value(&mut k, syscall::SYS_SBRK, 0, 0, 0), HEAP + 4096);
    assert_eq!(value(&mut k, syscall::SYS_FREAD, 0, STACK + 64, 7), 7);
    assert_eq!(peek(&mut k, STACK + 64, 7), b"welcome".to_vec());
    let mut g = frame();
    assert!(matches!(call(&mut k, &mut g, syscall::SYS_YIELD, 0, 0, 0), Action::Yield(_)));
    give_up(&mut k);
    assert_eq!(pick(&mut k), 0);
    proc::resume(&mut k.hart, proc::Handoff { slot: 0, intena: false });
    assert_eq!(peek(&mut k, STACK, 6), b"PARENT".to_vec());
    assert_eq!(peek(&mut k, HEAP, 4), b"heap".to_vec());
    assert_eq!(value(&mut k, syscall::SYS_FREAD, 0, STACK + 64, 7), 7);
    // No two pages are shared, and of the two tables the parent's is active.
    let (a, b) = (k.sched.procs[0].unwrap().page_table, k.sched.procs[1].unwrap().page_table);
    assert_eq!(k.sched.current, Some(0));
    assert_eq!(k.hart.satp, vm::switch_to(a));
    assert_ne!(k.hart.satp, vm::switch_to(b));
    for va in [TEXT, STACK, HEAP] {
        let (pa, _) = vm::translate(&k.vm.mem, a, va).unwrap();
        let (pb, _) = vm::translate(&k.vm.mem, b, va).unwrap();
        assert_ne!(pa, pb);
    }
}

#[test]
fn exec_replaces_the_program() {
    let (mut k, _) = booted(200);
    for i in 0..100 {
        k.vm.mem.write_byte(0x8021_0000 + 3 * 128 + i, 0xa0);
    }
    start(&mut k, "u-forkexec", "forkexec");
    enter(&mut k);
    let free = kalloc::free_pages(&k.vm.kmem, &k.vm.mem);
    poke(&mut k, STACK, b"unamenonesuch");
    value(&mut k, syscall::SYS_SBRK, 4096, 0, 0);
    assert_eq!(value(&mut k, syscall::SYS_EXEC, STACK + 5, 8, 0), ERR);
    let before = root(&k);
    let mut f = frame();
    match call(&mut k, &mut f, syscall::SYS_EXEC, STACK, 5, 0) {
        Action::Enter(e) => assert_eq!(e.sp, 0x4100_0000),
        _ => panic!("not replaced"),
    }
    assert_ne!(root(&k), before);
    assert_eq!(k.hart.sepc, TEXT);
    assert_eq!(k.hart.satp, 0x8000_0000_0000_0000 | (root(&k) >> 12));
    assert_eq!(peek(&mut k, TEXT, 4), vec![0xa0; 4]);
    assert_eq!(peek(&mut k, STACK, 5), vec![0; 5]);
    assert_eq!(value(&mut k, syscall::SYS_SBRK, 0, 0, 0), HEAP);
    assert_eq!(value(&mut k, syscall::SYS_GETPID, 0, 0, 0), 1);
    // As many pages as before: the old image's came back.
    assert_eq!(kalloc::free_pages(&k.vm.kmem, &k.vm.mem), free);
}

#[test]
fn wait_blocks_until_the_child_exits() {
    let mut k = running(200);
    let mut f = frame();
    call(&mut k, &mut f, syscall::SYS_FORK, 0, 0, 0);
    let child = f.a0;
    let pending = match call(&mut k, &mut f, syscall::SYS_WAIT, child, 0, 0) {
        Action::Block(h, p) => {
            assert_eq!(h.slot, 0);
            p
        }
        _ => panic!("did not block"),
    };
    assert!(matches!(pending, Pending::Join { pid: 2 }));
    assert_eq!(k.sched.procs[0].unwrap().state, State::Sleeping(proc::EXIT_CHAN));
    give_up(&mut k);
    let (slot, _) = enter(&mut k);
    assert_eq!(slot, 1);
    let mut g = frame();
    match call(&mut k, &mut g, syscall::SYS_EXIT, 7, 0, 0) {
        Action::Exit { pid, code, handoff } => {
            assert_eq!((pid, code, handoff.slot), (2, 7, 1));
        }
        _ => panic!("did not exit"),
    }
    assert_eq!(k.sched.procs[0].unwrap().state, State::Runnable);
    give_up(&mut k);
    assert_eq!(pick(&mut k), 0);
    proc::resume(&mut k.hart, proc::Handoff { slot: 0, intena: false });
    assert!(matches!(syscall::proceed(&mut k, &mut f, pending), Action::Return));
    assert_eq!(f.a0, 0);
    // Nobody to wait for.
    assert_eq!(value(&mut k, syscall::SYS_WAIT, 99, 0, 0), 0);
}

#[test]
fn sleep_lasts_its_ticks() {
    assert_eq!(syscall::sleep_ticks_for(0), 1);
    assert_eq!(syscall::sleep_ticks_for(1), 1);
    assert_eq!(syscall::sleep_ticks_for(10), 1);
    assert_eq!(syscall::sleep_ticks_for(11), 2);
    assert_eq!(syscall::sleep_ticks_for(30), 3);
    assert_eq!(syscall::sleep_ticks_for(u64::MAX), syscall::sleep_ticks_for(u64::MAX / 100));
    let mut k = running(200);
    let mut f = frame();
    let mut act = call(&mut k, &mut f, syscall::SYS_SLEEP_MS, 20, 0, 0);
    let timer = riscv::SCAUSE_INTERRUPT | trap::IRQ_S_TIMER;
    for tick in 1..3 {
        let pending = match act {
            Action::Block(_, p) => p,
            _ => panic!("did not block"),
        };
        assert!(matches!(pending, Pending::Sleep { target: 2 }));
        give_up(&mut k);
        let (next, _) = proc::scheduler(&mut k.sched, &mut k.hart, &mut k.vm);
        assert!(matches!(next, Pick::Idle));
        let mut idle = frame();
        idle.sstatus = riscv::SSTATUS_SPP;
        match trap::kerneltrap(&mut k, &mut idle, timer, 0, 1000, 0) {
            TrapAction::Tick { deadline, preempted } => {
                assert_eq!(deadline, 101_000);
                assert!(preempted.is_none());
            }
            _ => panic!("no tick"),
        }
        assert_eq!(timer::ticks(&k.timer), tick);
        assert_eq!(pick(&mut k), 0);
        proc::resume(&mut k.hart, proc::Handoff { slot: 0, intena: false });
        act = syscall::proceed(&mut k, &mut f, pending);
    }
    assert!(matches!(act, Action::Return));
    assert_eq!(f.a0, 0);
}

#[test]
fn timer_preempts_the_running_process() {
    let mut k = running(200);
    start(&mut k, "u-uname", "uname");
    let timer = riscv::SCAUSE_INTERRUPT | trap::IRQ_S_TIMER;
    let mut f = frame();
    match trap::kerneltrap(&mut k, &mut f, timer, 0, 0, 0) {
        TrapAction::Tick { deadline, preempted } => {
            assert_eq!(deadline, 100_000);
            assert_eq!(preempted.unwrap().slot, 0);
        }
        _ => panic!("no tick"),
    }
    give_up(&mut k);
    // Round robin: the other one first, then this one again.
    assert_eq!(enter(&mut k).0, 1);
    trap::kerneltrap(&mut k, &mut f, timer, 0, 0, 0);
    give_up(&mut k);
    assert_eq!(pick(&mut k), 0);
}

#[test]
fn read_waits_for_input() {
    let mut k = running(200);
    let mut f = frame();
    assert_eq!(value(&mut k, syscall::SYS_READ, STACK, 0, 0), 0);
    let pending = match call(&mut k, &mut f, syscall::SYS_READ, STACK, 4, 0) {
        Action::Block(_, p) => p,
        _ => panic!("did not block"),
    };
    assert_eq!(k.sched.procs[0].unwrap().state, State::Sleeping(0x8023_0000));
    give_up(&mut k);
    for b in b"ab\rcd" {
        console::on_input(&mut k.console, &mut k.sched, &mut k.hart, *b);
    }
    assert_eq!(pick(&mut k), 0);
    proc::resume(&mut k.hart, proc::Handoff { slot: 0, intena: false });
    assert!(matches!(syscall::proceed(&mut k, &mut f, pending), Action::Return));
    assert_eq!(f.a0, 4);
    assert_eq!(peek(&mut k, STACK, 4), b"ab\nc".to_vec());
    assert_eq!(value(&mut k, syscall::SYS_READ, STACK, 4, 0), 1);
    assert_eq!(peek(&mut k, STACK, 1), b"d".to_vec());
    // Input that cannot be delivered is gone all the same.
    console::on_input(&mut k.console, &mut k.sched, &mut k.hart, b'x');
    assert_eq!(value(&mut k, syscall::SYS_READ, TEXT, 4, 0), ERR);
    assert_eq!(console::getchar(&mut k.console, &mut k.hart), None);
}

#[test]
fn external_interrupts_are_claimed() {
    let mut k = running(200);
    let mut f = frame();
    let ext = riscv::SCAUSE_INTERRUPT | trap::IRQ_S_EXTERNAL;
    assert!(matches!(trap::kerneltrap(&mut k, &mut f, ext, 0, 0, 0), TrapAction::Claim));
    assert!(matches!(trap::claimed(0), Claimed::Spurious));
    match trap::claimed(10) {
        Claimed::Uart(w) => assert_eq!((w.addr, w.value), (0x0c20_1004, 10)),
        _ => panic!("not the serial port"),
    }
    match trap::claimed(3) {
        Claimed::Unexpected(irq, w) => assert_eq!((irq, w.addr, w.value), (3, 0x0c20_1004, 3)),
        _ => panic!("expected"),
    }
}

#[test]
fn copies_cross_page_boundaries() {
    let mut k = running(200);
    value(&mut k, syscall::SYS_SBRK, 0x2000, 0, 0);
    let mut f = frame();
    trap::kerneltrap(&mut k, &mut f, trap::EXC_STORE_PAGE_FAULT, HEAP + 0x1000, 0, 0);
    trap::kerneltrap(&mut k, &mut f, trap::EXC_STORE_PAGE_FAULT, HEAP, 0, 0);
    let bytes: Vec<u8> = (0..200).collect();
    poke(&mut k, HEAP + 0xfa3, &bytes);
    assert_eq!(peek(&mut k, HEAP + 0xfa3, 200), bytes);
    assert_eq!(peek(&mut k, HEAP + 0xfa2, 1), vec![0]);
    assert_eq!(peek(&mut k, HEAP + 0xfa3 + 200, 1), vec![0]);
    let r = root(&k);
    assert_eq!(usercopy::copy_from_user(&k.vm, &mut k.hart, r, HEAP + 0x1fff, 2), None);
    assert_eq!(k.hart.sstatus & riscv::SSTATUS_SUM, 0);
}

#[test]
fn threads_yield_sleep_and_join() {
    let (mut k, _) = booted(100);
    let root = k.vm.root;
    let a = proc::spawn(&mut k.sched, &mut k.hart, "a", 11, 0x8030_0000, root);
    let b = proc::spawn(&mut k.sched, &mut k.hart, "b", 12, 0x8031_0000, root);
    assert_eq!((a, b), (1, 2));
    let (slot, first) = enter(&mut k);
    assert_eq!(slot, 0);
    assert!(matches!(first, First::Call(11)));
    assert!(riscv::intr_get(&k.hart));
    assert_eq!(proc::current_pid(&k.sched, &mut k.hart), 1);
    // The first one waits for the second.
    let h = proc::join(&mut k.sched, &mut k.hart, 2).unwrap();
    assert!(h.intena);
    give_up(&mut k);
    assert!(matches!(enter(&mut k), (1, First::Call(12))));
    let h2 = proc::yield_now(&mut k.sched, &mut k.hart).unwrap();
    assert_eq!(h2.slot, 1);
    give_up(&mut k);
    // Still asleep, so the second one runs again.
    assert_eq!(pick(&mut k), 1);
    proc::resume(&mut k.hart, h2);
    assert!(riscv::intr_get(&k.hart));
    proc::exit(&mut k.sched, &mut k.hart);
    give_up(&mut k);
    let (next, stacks) = proc::scheduler(&mut k.sched, &mut k.hart, &mut k.vm);
    assert!(matches!(next, Pick::Run { slot: 0, .. }));
    assert_eq!(stacks, vec![0x8031_0000]);
    proc::resume(&mut k.hart, h);
    assert!(proc::join(&mut k.sched, &mut k.hart, 2).is_none());
    // The slot is taken again, the pid is not.
    let c = proc::spawn(&mut k.sched, &mut k.hart, "c", 13, 0x8031_0000, root);
    assert_eq!(c, 3);
    assert_eq!(k.sched.procs.len(), 2);
    assert_eq!(k.sched.procs[1].unwrap().name, "c");
    let list = proc::process_list(&k.sched, &mut k.hart);
    assert_eq!(list, vec![(1, "a", State::Running), (3, "c", State::Runnable)]);
}

#[test]
fn fork_from_a_kernel_thread_fails() {
    let (mut k, _) = booted(100);
    let root = k.vm.root;
    proc::spawn(&mut k.sched, &mut k.hart, "a", 11, 0x8030_0000, root);
    enter(&mut k);
    let pid = proc::fork(&mut k.sched, &mut k.hart, &mut k.vm, &frame(), 0x8031_0000);
    assert_eq!(pid, ERR);
    assert_eq!(k.sched.procs.len(), 1);
    assert_eq!(proc::current_root(&k.sched, &mut k.hart, 5), root);
    assert!(!proc::on_tick_preempt(&mut k.sched, &mut k.hart).is_none());
    spinlock::pop_off(&mut k.hart);
}
