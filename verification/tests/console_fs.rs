use osmium::console;
use osmium::console::Console;
use osmium::fs;
use osmium::fs::Fs;
use osmium::proc;
use osmium::proc::{Scheduler, State};
use osmium::riscv;
use osmium::riscv::Hart;

#[test]
fn newlines_get_a_carriage_return() {
    assert_eq!(console::write_str("a\nb\n"), b"a\r\nb\r\n".to_vec());
    assert_eq!(console::write_str("\u{e9}"), vec![0xc3, 0xa9]);
    let mut pieces = console::cook(b"x\n");
    pieces.extend(console::cook(b"\ny"));
    assert_eq!(pieces, console::cook(b"x\n\ny"));
}

fn one_thread() -> (Scheduler, Hart) {
    let mut s = Scheduler::new(0);
    let mut hart = Hart::new();
    riscv::intr_on(&mut hart);
    proc::spawn(&mut s, &mut hart, "reader", 1, 0x8030_0000, 0x87ff_e000);
    let mut p = s.procs[0].unwrap();
    p.state = State::Running;
    s.procs[0] = Some(p);
    s.current = Some(0);
    (s, hart)
}

#[test]
fn input_is_first_in_first_out() {
    let (mut s, mut hart) = one_thread();
    let mut c = Console::new(7);
    assert_eq!(console::getchar(&mut c, &mut hart), None);
    for b in b"hi\r" {
        console::on_input(&mut c, &mut s, &mut hart, *b);
    }
    assert_eq!(console::getchar(&mut c, &mut hart), Some(b'h'));
    assert_eq!(console::getchar(&mut c, &mut hart), Some(b'i'));
    assert_eq!(console::getchar(&mut c, &mut hart), Some(b'\n'));
    assert_eq!(console::getchar(&mut c, &mut hart), None);
}

#[test]
fn full_input_buffer_drops_bytes() {
    let (mut s, mut hart) = one_thread();
    let mut c = Console::new(7);
    // Start in the middle of the ring.
    for i in 0..100 {
        console::on_input(&mut c, &mut s, &mut hart, i);
        assert_eq!(console::getchar(&mut c, &mut hart), Some(if i == 13 { 10 } else { i }));
    }
    for i in 0..300u32 {
        console::on_input(&mut c, &mut s, &mut hart, (i % 200 + 20) as u8);
    }
    for i in 0..256u32 {
        assert_eq!(console::getchar(&mut c, &mut hart), Some((i % 200 + 20) as u8));
    }
    assert_eq!(console::getchar(&mut c, &mut hart), None);
}

#[test]
fn blocking_reader_sleeps_and_wakes() {
    let (mut s, mut hart) = one_thread();
    let mut c = Console::new(7);
    let h = match console::getchar_blocking(&mut c, &mut s, &mut hart) {
        Err(h) => h,
        Ok(_) => panic!("input from nowhere"),
    };
    assert_eq!((h.slot, h.intena), (0, true));
    assert_eq!(s.procs[0].unwrap().state, State::Sleeping(7));
    console::on_input(&mut c, &mut s, &mut hart, b'z');
    assert_eq!(s.procs[0].unwrap().state, State::Runnable);
    proc::resume(&mut hart, h);
    assert!(riscv::intr_get(&hart));
    assert!(matches!(console::getchar_blocking(&mut c, &mut s, &mut hart), Ok(b'z')));
    assert!(riscv::intr_get(&hart));
}

#[test]
fn files_are_found_and_read() {
    let mut hart = Hart::new();
    let mut f = Fs::new();
    assert_eq!(fs::lookup(&mut f, &mut hart, "motd"), None);
    fs::init(&mut f, &mut hart);
    assert_eq!(fs::lookup(&mut f, &mut hart, "motd"), Some(0));
    assert_eq!(fs::lookup(&mut f, &mut hart, "cpuinfo"), Some(2));
    assert_eq!(fs::lookup(&mut f, &mut hart, "nonesuch"), None);
    let list = fs::list(&mut f, &mut hart);
    assert_eq!(
        list,
        vec![("motd".to_string(), 45), ("readme".to_string(), 97), ("cpuinfo".to_string(), 40)]
    );
    let mut buf = [0u8; 8];
    assert_eq!(fs::read_at(&mut f, &mut hart, 0, 0, &mut buf), 8);
    assert_eq!(&buf, b"welcome ");
    assert_eq!(fs::read_at(&mut f, &mut hart, 0, 40, &mut buf), 5);
    assert_eq!(&buf, b"Rust\nme ");
    assert_eq!(fs::read_at(&mut f, &mut hart, 0, 45, &mut buf), 0);
    assert_eq!(fs::read_at(&mut f, &mut hart, 0, 1000, &mut buf), 0);
    assert_eq!(fs::read_at(&mut f, &mut hart, 3, 0, &mut buf), 0);
}

#[test]
fn pieces_make_up_the_file() {
    let mut hart = Hart::new();
    let mut f = Fs::new();
    fs::init(&mut f, &mut hart);
    for cap in [1, 7, 64, 97, 200] {
        let mut all: Vec<u8> = Vec::new();
        let mut buf = vec![0u8; cap];
        loop {
            let n = fs::read_at(&mut f, &mut hart, 1, all.len(), &mut buf);
            if n == 0 {
                break;
            }
            all.extend_from_slice(&buf[..n]);
        }
        assert_eq!(all.len(), 97);
        assert!(all.starts_with(b"osmium ramfs\n---"));
        assert!(all.ends_with(b"cat readme\n"));
    }
}

