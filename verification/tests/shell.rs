use osmium::boot;
use osmium::boot::{Machine, Report};
use osmium::console;
use osmium::kernel::Kernel;
use osmium::memlayout::KernelImage;
use osmium::physmem::Memory;
use osmium::proc;
use osmium::proc::State;
use osmium::sbi;
use osmium::shell;
use osmium::shell::{Command, Key, Phase, Reply, Shell, Step};
use osmium::uproc::Pick;
use osmium::user::{Image, Images};

const ALLOC_START: u64 = 0x80a4_0000;
const PHYS_TOP: u64 = 0x8800_0000;

fn image() -> KernelImage {
    KernelImage {
        kernel_start: 0x8020_0000,
        text_start: 0x8020_0000,
        text_end: 0x8021_0000,
        user_start: 0x8021_0000,
        user_end: 0x8021_2000,
        rodata_start: 0x8021_2000,
        rodata_end: 0x8021_8000,
        data_start: 0x8021_8000,
        kernel_end: 0x8024_0000,
    }
}

fn program(n: u64) -> Image {
    Image { start: 0x8021_0000 + 128 * n, end: 0x8021_0000 + 128 * n + 100 }
}

fn images() -> Images {
    Images {
        greeter: program(0),
        trespasser: program(1),
        badsys: program(2),
        uname: program(3),
        catfile: program(4),
        heapgrow: program(5),
        forker: program(6),
        forkexec: program(7),
        echoline: program(8),
    }
}

/// The header of a device tree of `size` bytes.
fn header(size: u32) -> [u8; 8] {
    let s = size.to_be_bytes();
    [0xd0, 0x0d, 0xfe, 0xed, s[0], s[1], s[2], s[3]]
}

/// A machine whose device tree leaves only the topmost `pages` pages free.
fn machine(pages: u64) -> Machine {
    Machine {
        image: image(),
        images: images(),
        mem: Memory::new(),
        dtb: ALLOC_START,
        header: header((PHYS_TOP - ALLOC_START - pages * 4096) as u32),
        vector: 0x8020_0100,
        trampoline: 0x8020_0200,
        input_chan: 0x8023_0000,
    }
}

fn booted(pages: u64) -> (Kernel, Report) {
    match boot::boot(machine(pages)) {
        Ok(r) => r,
        Err(e) => panic!("boot failed: {:?}", e),
    }
}

const KSTACK: u64 = 0x8070_0000;

/// A kernel whose only thread is running and will be the shell.
fn with_shell(pages: u64) -> Kernel {
    let (mut k, _) = booted(pages);
    let root = k.vm.root;
    proc::spawn(&mut k.sched, &mut k.hart, "init", 1, 0x8030_0000, root);
    match proc::scheduler(&mut k.sched, &mut k.hart, &mut k.vm) {
        (Pick::Run { slot: 0, .. }, _) => {}
        _ => panic!("nothing to run"),
    }
    proc::thread_entry(&k.sched, &mut k.hart);
    k
}

/// What the command in `line` makes the terminal show.
fn said(k: &mut Kernel, line: &str) -> String {
    let reply = shell::run_command(k, line, 0, KSTACK);
    String::from_utf8(shell::show(&reply)).unwrap()
}

fn keys(bytes: &[u8]) -> Vec<u8> {
    let mut line: Vec<u8> = Vec::new();
    for b in bytes {
        shell::edit(&mut line, *b);
    }
    line
}

#[test]
fn line_editing() {
    assert_eq!(keys(b"help"), b"help".to_vec());
    assert_eq!(keys(b"hx\x7felp"), b"help".to_vec());
    assert_eq!(keys(b"h\x08\x08\x08ls"), b"ls".to_vec());
    assert_eq!(keys(b"a\tb\x01\xe9c"), b"abc".to_vec());
    assert_eq!(keys(&[b'x'; 200]).len(), 128);
    let mut line: Vec<u8> = Vec::new();
    assert_eq!(shell::edit(&mut line, 0x7f), Key::Ignore);
    assert_eq!(shell::edit(&mut line, b'a'), Key::Add(b'a'));
    assert_eq!(shell::edit(&mut line, 0x08), Key::Erase);
    assert_eq!(shell::edit(&mut line, b'\n'), Key::Done);
    assert_eq!(shell::echo(Key::Erase), b"\x08 \x08".to_vec());
    assert_eq!(shell::echo(Key::Add(b'q')), b"q".to_vec());
    assert_eq!(shell::echo(Key::Done), b"\n".to_vec());
    assert_eq!(shell::echo(Key::Ignore), b"".to_vec());
}

#[test]
fn commands_are_parsed() {
    assert!(matches!(shell::parse(""), Command::Nothing));
    assert!(matches!(shell::parse("help"), Command::Help));
    assert!(matches!(shell::parse("ps aux"), Command::Ps));
    assert!(matches!(shell::parse("cat   motd  "), Command::Cat(n) if n == "motd"));
    assert!(matches!(shell::parse("cat a b"), Command::Cat(n) if n == "a b"));
    assert!(matches!(shell::parse("cat"), Command::Cat(n) if n.is_empty()));
    assert!(matches!(shell::parse("cat\u{2003}motd"), Command::Cat(n) if n == "motd"));
    assert!(matches!(shell::parse("Help"), Command::Unknown(w) if w == "Help"));
    assert!(matches!(shell::parse("catmotd"), Command::Unknown(w) if w == "catmotd"));
    assert!(matches!(shell::parse("poweroff"), Command::Poweroff));
    assert!(matches!(shell::parse("reboot"), Command::Reboot));
    assert!(matches!(shell::parse("greet"), Command::Greet));
    assert!(matches!(shell::parse("fault"), Command::Fault));
    assert!(matches!(shell::parse("echoline"), Command::Echoline));
    assert!(matches!(shell::parse("uname"), Command::Uname));
    assert!(matches!(shell::parse("uptime"), Command::Uptime));
    assert!(matches!(shell::parse("mem"), Command::Mem));
    assert!(matches!(shell::parse("ls"), Command::Ls));
}

#[test]
fn files_are_listed_and_shown() {
    let mut k = with_shell(100);
    assert_eq!(said(&mut k, "ls"), "      45  motd\n      97  readme\n      40  cpuinfo\n");
    assert_eq!(said(&mut k, "cat motd"), "welcome to osmium -- a RISC-V kernel in Rust\n");
    assert_eq!(
        said(&mut k, "cat readme"),
        "osmium ramfs\n------------\na flat, read-only, in-memory filesystem.\ntry: ls, cat motd, cat readme\n"
    );
    assert_eq!(said(&mut k, "cat"), "  usage: cat FILE\n");
    assert_eq!(said(&mut k, "cat passwd"), "  cat: no such file 'passwd'\n");
}

#[test]
fn statistics() {
    let mut k = with_shell(300);
    // 300 pages less the kernel's own table.
    assert_eq!(
        said(&mut k, "mem"),
        "  phys: 230 free pages (0 MiB of 128 MiB DRAM)\n  heap: 8192 KiB free of 8192 KiB\n"
    );
    assert_eq!(
        said(&mut k, "ps"),
        "  PID   NAME         STATE\n  1     init         Running\n"
    );
    let reply = shell::run_command(&mut k, "uptime", 123_450_000, KSTACK);
    assert_eq!(
        shell::show(&reply),
        b"  up 12.345 s (0 ticks at 100 Hz)\n".to_vec()
    );
    let reply = shell::run_command(&mut k, "uptime", 10_070_000, KSTACK);
    assert_eq!(shell::show(&reply), b"  up 1.007 s (0 ticks at 100 Hz)\n".to_vec());
    let reply = shell::run_command(&mut k, "uptime", 10_670_000, KSTACK);
    assert_eq!(shell::show(&reply), b"  up 1.067 s (0 ticks at 100 Hz)\n".to_vec());
}

#[test]
fn states_are_spelled_out() {
    let list = vec![
        (1, "a", State::Runnable),
        (23456, "a-name-too-long", State::Sleeping(42)),
        (7, "z", State::Zombie),
    ];
    assert_eq!(
        String::from_utf8(shell::show(&Reply::Processes(list))).unwrap(),
        "  PID   NAME         STATE\n  1     a            Runnable\n  23456 a-name-too-long Sleeping(42)\n  7     z            Zombie\n"
    );
}

#[test]
fn help_names_every_command() {
    let mut k = with_shell(100);
    let help = said(&mut k, "help");
    assert!(help.starts_with("  help      this text\n  ps        list processes\n"));
    assert!(help.ends_with("  poweroff  exit QEMU\n  reboot    reset the machine\n"));
    assert_eq!(help.lines().count(), 12);
    assert_eq!(said(&mut k, ""), "");
    assert_eq!(said(&mut k, "frob x"), "  unknown command 'frob' -- try 'help'\n");
}

#[test]
fn programs_are_started() {
    let mut k = with_shell(200);
    assert_eq!(said(&mut k, "greet"), "  spawned pid 2\n");
    assert_eq!(k.sched.procs[1].unwrap().name, "u-greeter");
    assert_eq!(said(&mut k, "fault"), "  spawned pid 3\n");
    assert_eq!(k.sched.procs[2].unwrap().name, "u-trespasser");
    assert!(matches!(
        shell::run_command(&mut k, "uname", 0, KSTACK),
        Reply::Joining(4)
    ));
    assert!(matches!(
        shell::run_command(&mut k, "echoline", 0, KSTACK),
        Reply::Joining(5)
    ));
    assert_eq!(k.sched.procs[4].unwrap().name, "u-echoline");
    k.programs.clear();
    assert!(matches!(shell::run_command(&mut k, "greet", 0, KSTACK), Reply::NoProgram));
    let cost = osmium::vm::map_cost(&image());
    let mut k = with_shell(cost + 5);
    assert!(matches!(shell::run_command(&mut k, "greet", 0, KSTACK), Reply::OutOfPages));
}

#[test]
fn machine_is_stopped() {
    let mut k = with_shell(100);
    match shell::run_command(&mut k, "poweroff", 0, KSTACK) {
        Reply::Power(r) => assert_eq!((r.reset_type, r.again), (sbi::RESET_TYPE_SHUTDOWN, false)),
        _ => panic!("goes on"),
    }
    match shell::run_command(&mut k, "reboot", 0, KSTACK) {
        Reply::Power(r) => assert_eq!((r.reset_type, r.again), (sbi::RESET_TYPE_COLD_REBOOT, true)),
        _ => panic!("goes on"),
    }
}

/// Take steps until the shell waits; what the terminal shows meanwhile.
fn session(sh: &mut Shell, k: &mut Kernel) -> String {
    let mut out: Vec<u8> = Vec::new();
    loop {
        let step = shell::shell_main(sh, k, 0, KSTACK);
        out.extend(shell::screen(&step));
        if let Step::Wait(h) = step {
            proc::scheduler_return(&mut k.sched, &mut k.hart, &k.vm);
            // Not resumed before someone wakes it.
            assert_eq!(h.slot, 0);
            return String::from_utf8(out).unwrap();
        }
    }
}

fn type_in(k: &mut Kernel, bytes: &[u8]) {
    for b in bytes {
        console::on_input(&mut k.console, &mut k.sched, &mut k.hart, *b);
    }
    match proc::scheduler(&mut k.sched, &mut k.hart, &mut k.vm) {
        (Pick::Run { slot: 0, .. }, _) => {}
        _ => panic!("the shell sleeps on"),
    }
    proc::resume(&mut k.hart, proc::Handoff { slot: 0, intena: true });
}

#[test]
fn an_interactive_session() {
    let mut k = with_shell(200);
    let mut sh = Shell::new();
    assert_eq!(
        session(&mut sh, &mut k),
        "\nosmium shell -- 'help' lists commands\nosmium> "
    );
    assert_eq!(sh.phase, Phase::Reading);
    type_in(&mut k, b"  cat cp");
    assert_eq!(session(&mut sh, &mut k), "  cat cp");
    type_in(&mut k, b"x\x7fuinfo  \r");
    assert_eq!(
        session(&mut sh, &mut k),
        "x\x08 \x08uinfo  \nisa: rv64gc\nharts: 1\nmachine: qemu-virt\nosmium> "
    );
    // The shell leaves the console to the program it joins.
    type_in(&mut k, b"uname\rls\r");
    assert_eq!(session(&mut sh, &mut k), "uname\n");
    assert_eq!(sh.phase, Phase::Joining(2));
    match proc::scheduler(&mut k.sched, &mut k.hart, &mut k.vm) {
        (Pick::Run { slot: 1, .. }, _) => {}
        _ => panic!("the program does not run"),
    }
    proc::thread_entry(&k.sched, &mut k.hart);
    proc::exit(&mut k.sched, &mut k.hart);
    proc::scheduler_return(&mut k.sched, &mut k.hart, &k.vm);
    type_in(&mut k, b"");
    assert_eq!(
        session(&mut sh, &mut k),
        "osmium> ls\n      45  motd\n      97  readme\n      40  cpuinfo\nosmium> "
    );
}
