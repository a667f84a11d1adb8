use osmium::plic;
use osmium::power;
use osmium::power::PowerStep;
use osmium::sbi;
use osmium::sbi::{SbiCall, SbiRet};
use osmium::timer;
use osmium::timer::Timer;
use osmium::trap;
use osmium::uart;

#[test]
fn uart_is_set_up() {
    let writes: Vec<(u64, u8)> = uart::init().iter().map(|w| (w.addr, w.value)).collect();
    assert_eq!(
        writes,
        vec![
            (0x1000_0001, 0x00),
            (0x1000_0003, 0x80),
            (0x1000_0000, 0x03),
            (0x1000_0001, 0x00),
            (0x1000_0003, 0x03),
            (0x1000_0002, 0x07),
        ]
    );
    let w = uart::enable_rx_interrupt();
    assert_eq!((w.addr, w.value), (0x1000_0001, 0x01));
}

#[test]
fn uart_transfers_when_ready() {
    assert_eq!(uart::put(0x00, b'x'), None);
    let w = uart::put(0x60, b'x').unwrap();
    assert_eq!((w.addr, w.value), (0x1000_0000, b'x'));
    assert_eq!(uart::get(0x60), None);
    assert_eq!(uart::get(0x61), Some(0x1000_0000));
    assert_eq!(uart::reg_addr(uart::LSR), 0x1000_0005);
}

#[test]
fn plic_routes_the_uart() {
    let w = plic::init();
    assert_eq!((w.addr, w.value), (0x0c00_0028, 1));
    assert_eq!(plic::enable_word(), 0x0c00_2080);
    let w = plic::init_hart(0x8000_0001);
    assert_eq!((w[0].addr, w[0].value), (0x0c00_2080, 0x8000_0401));
    assert_eq!((w[1].addr, w[1].value), (0x0c20_1000, 0));
    assert_eq!(plic::claim(0), None);
    assert_eq!(plic::claim(10), Some(10));
    let w = plic::complete(10);
    assert_eq!((w.addr, w.value), (0x0c20_1004, 10));
}

fn ok(value: u64) -> SbiRet {
    SbiRet { error: 0, value }
}

#[test]
fn sbi_discovery() {
    assert_eq!(sbi::spec_version_call(), SbiCall { eid: 0x10, fid: 0, arg0: 0, arg1: 0 });
    assert_eq!(sbi::spec_version(ok(0x0200_0003)), (2, 3));
    assert_eq!(sbi::spec_version(ok(0xff80_0000_ff00_0001)), (127, 1));
    assert_eq!(sbi::impl_id_call().fid, 1);
    assert_eq!(sbi::impl_id(ok(1)), 1);
    assert_eq!(sbi::impl_name(1), "OpenSBI");
    assert_eq!(sbi::impl_name(4), "RustSBI");
    assert_eq!(sbi::impl_name(99), "unknown SBI implementation");
    assert_eq!(sbi::impl_version_call().fid, 2);
    assert_eq!(sbi::impl_version(ok(0x10004)), 0x10004);
    assert_eq!(sbi::probe_time(), SbiCall { eid: 0x10, fid: 3, arg0: 0x5449_4d45, arg1: 0 });
    assert!(sbi::probe_extension(ok(1)));
    assert!(!sbi::probe_extension(ok(0)));
    assert!(!sbi::probe_extension(SbiRet { error: -2, value: 1 }));
    assert!(ok(0).is_ok());
    assert!(!SbiRet { error: -1, value: 0 }.is_ok());
    assert_eq!(sbi::error_name(-4), "denied");
    assert_eq!(sbi::error_name(0), "success");
    assert_eq!(sbi::error_name(-99), "unknown error");
    assert_eq!(
        sbi::set_timer(77),
        SbiCall { eid: 0x5449_4d45, fid: 0, arg0: 77, arg1: 0 }
    );
}

#[test]
fn power_off_asks_the_firmware() {
    let r = power::poweroff();
    assert_eq!(power::verb(&r), "goodbye");
    assert_eq!(power::probe(&r), PowerStep::Call(sbi::probe_srst()));
    assert_eq!(
        power::probed(&r, ok(1)),
        PowerStep::Call(SbiCall { eid: 0x5352_5354, fid: 0, arg0: 0, arg1: 0 })
    );
    assert_eq!(power::probed(&r, ok(0)), PowerStep::Missing);
    assert_eq!(power::refused(SbiRet { error: -3, value: 0 }), PowerStep::Refused(-3));
    let r = power::reboot();
    assert_eq!(power::verb(&r), "rebooting");
    assert_eq!(power::probed(&r, ok(1)), PowerStep::Call(sbi::system_reset(1, 0)));
}

#[test]
fn timer_ticks_at_a_hundred_hertz() {
    let mut t = Timer::new();
    assert_eq!(timer::init(5), 100_005);
    assert_eq!(timer::ticks(&t), 0);
    assert_eq!(timer::on_tick(&mut t, 100_100), 200_100);
    assert_eq!(timer::ticks(&t), 1);
    assert_eq!(timer::sleep_target(&t, 60), 61);
    assert_eq!(timer::uptime_ms(1_799_999), 179);
    assert_eq!(timer::TIMEBASE_FREQ / timer::TICK_HZ, timer::TICK_INTERVAL);
}

#[test]
fn exceptions_have_names() {
    assert_eq!(trap::exception_name(2), "illegal instruction");
    assert_eq!(trap::exception_name(15), "store/AMO page fault");
    assert_eq!(trap::exception_name(10), "unknown exception");
    assert_eq!(trap::instruction_len(0x9002), 2);
    assert_eq!(trap::instruction_len(0x0073), 4);
}
