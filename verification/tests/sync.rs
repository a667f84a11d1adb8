use osmium::proc;
use osmium::proc::{Scheduler, State};
use osmium::riscv;
use osmium::riscv::Hart;
use osmium::spinlock;
use osmium::spinlock::SpinLock;
use osmium::sync::{Channel, Semaphore};
use osmium::timer;
use osmium::timer::Timer;

/// A hart with interrupts on that runs the first of `n` threads.
fn threads(n: u64) -> (Scheduler, Hart) {
    let mut s = Scheduler::new(0x8020_0200);
    let mut hart = Hart::new();
    riscv::intr_on(&mut hart);
    for i in 0..n {
        proc::spawn(&mut s, &mut hart, "thread", i, 0x8030_0000, 0x87ff_e000);
    }
    run(&mut s, 0);
    (s, hart)
}

/// Pretend the scheduler picked this thread.
fn run(s: &mut Scheduler, slot: usize) {
    s.current = Some(slot);
    let mut p = s.procs[slot].unwrap();
    assert_eq!(p.state, State::Runnable);
    p.state = State::Running;
    s.procs[slot] = Some(p);
}

/// The running thread went to sleep; another one runs.
fn switch(s: &mut Scheduler, hart: &mut Hart, slot: usize) {
    run(s, slot);
    proc::resume(hart, proc::Handoff { slot, intena: true });
}

fn state(s: &Scheduler, slot: usize) -> State {
    s.procs[slot].unwrap().state
}

#[test]
fn interrupt_disable_nests() {
    let mut hart = Hart::new();
    riscv::intr_on(&mut hart);
    spinlock::push_off(&mut hart);
    assert!(!riscv::intr_get(&hart));
    assert!(spinlock::holding_one(&hart));
    spinlock::push_off(&mut hart);
    assert!(!spinlock::holding_one(&hart));
    spinlock::pop_off(&mut hart);
    assert!(!riscv::intr_get(&hart));
    spinlock::pop_off(&mut hart);
    assert!(riscv::intr_get(&hart));
    riscv::intr_off(&mut hart);
    spinlock::push_off(&mut hart);
    spinlock::pop_off(&mut hart);
    assert!(!riscv::intr_get(&hart));
}

#[test]
fn a_lock_guards_its_value() {
    let mut hart = Hart::new();
    riscv::intr_on(&mut hart);
    let mut lock: SpinLock<u32> = SpinLock::new("answer", 41);
    assert_eq!(lock.name(), "answer");
    let mut guard = lock.lock(&mut hart);
    assert!(!riscv::intr_get(&hart));
    assert_eq!(*guard.deref(), 41);
    *guard.deref_mut() += 1;
    lock.release(guard, &mut hart);
    assert!(riscv::intr_get(&hart));
    let guard = lock.lock(&mut hart);
    assert_eq!(*guard.deref(), 42);
    lock.release(guard, &mut hart);
}

#[test]
fn with_sum_restores_the_bit() {
    let mut hart = Hart::new();
    let n = riscv::with_sum(&mut hart, |h| {
        assert_eq!(h.sstatus, riscv::SSTATUS_SUM);
        5
    });
    assert_eq!(n, 5);
    assert_eq!(hart.sstatus, 0);
    hart.sstatus = riscv::SSTATUS_SUM;
    riscv::with_sum(&mut hart, |h| assert_eq!(h.sstatus, riscv::SSTATUS_SUM));
    assert_eq!(hart.sstatus, riscv::SSTATUS_SUM);
    // Nothing else changes.
    hart.sstatus = riscv::SSTATUS_SIE;
    let seen = riscv::with_sum(&mut hart, |h| h.sstatus);
    assert_eq!(seen, riscv::SSTATUS_SIE | riscv::SSTATUS_SUM);
    assert_eq!(hart.sstatus, riscv::SSTATUS_SIE);
}

#[test]
fn semaphore_counts() {
    let (mut s, mut hart) = threads(2);
    let mut sem = Semaphore::new(1, 99);
    assert!(sem.wait(&mut s, &mut hart).is_none());
    let h = sem.wait(&mut s, &mut hart).unwrap();
    assert_eq!((h.slot, h.intena), (0, true));
    assert_eq!(state(&s, 0), State::Sleeping(99));
    switch(&mut s, &mut hart, 1);
    sem.signal(&mut s, &mut hart);
    assert_eq!(state(&s, 0), State::Runnable);
    assert!(riscv::intr_get(&hart));
    // Whoever comes first gets it.
    assert!(sem.wait(&mut s, &mut hart).is_none());
}

#[test]
fn producer_and_consumer() {
    let (mut s, mut hart) = threads(2);
    let mut c: Channel<u64> = Channel::new(4, (1, 2));
    let mut next = 0;
    let mut got: Vec<u64> = Vec::new();
    let mut blocked = [0, 0];
    let mut who = 0;
    while got.len() < 20 {
        if who == 0 {
            if next == 20 {
                proc::exit(&mut s, &mut hart);
                who = 1;
                switch(&mut s, &mut hart, who);
            } else {
                match c.send(&mut s, &mut hart, next) {
                    Ok(()) => next += 1,
                    Err((item, h)) => {
                        assert_eq!((item, h.slot), (next, 0));
                        blocked[0] += 1;
                        who = 1;
                        switch(&mut s, &mut hart, who);
                    }
                }
            }
        } else {
            match c.recv(&mut s, &mut hart) {
                Ok(item) => got.push(item),
                Err(h) => {
                    assert_eq!(h.slot, 1);
                    blocked[1] += 1;
                    who = 0;
                    switch(&mut s, &mut hart, who);
                }
            }
        }
    }
    assert_eq!(got, (0..20).collect::<Vec<u64>>());
    assert_eq!(got.iter().sum::<u64>(), 190);
    // Both ends really had to wait.
    assert_eq!(blocked, [4, 4]);
}

#[test]
fn channel_steps() {
    let (mut s, mut hart) = threads(2);
    let mut c: Channel<&str> = Channel::new(1, (1, 2));
    assert!(c.recv(&mut s, &mut hart).is_err());
    assert_eq!(state(&s, 0), State::Sleeping(2));
    switch(&mut s, &mut hart, 1);
    assert!(c.reserve(&mut s, &mut hart).is_none());
    c.put(&mut hart, "item");
    // Filled but not announced: the receiver sleeps on.
    assert_eq!(state(&s, 0), State::Sleeping(2));
    c.announce(&mut s, &mut hart);
    assert_eq!(state(&s, 0), State::Runnable);
    assert!(matches!(c.send(&mut s, &mut hart, "more"), Err(("more", _))));
    assert_eq!(state(&s, 1), State::Sleeping(1));
    switch(&mut s, &mut hart, 0);
    assert!(c.claim(&mut s, &mut hart).is_none());
    assert_eq!(c.take(&mut hart), "item");
    assert_eq!(state(&s, 1), State::Sleeping(1));
    c.vacate(&mut s, &mut hart);
    assert_eq!(state(&s, 1), State::Runnable);
}

#[test]
fn sleeping_until_a_tick() {
    let (mut s, mut hart) = threads(1);
    let mut t = Timer::new();
    let target = timer::sleep_target(&t, 2);
    let h = timer::sleep_ticks(&t, &mut s, &mut hart, target).unwrap();
    assert_eq!(h.slot, 0);
    assert_eq!(state(&s, 0), State::Sleeping(timer::TICK_CHAN));
    timer::on_tick(&mut t, 0);
    proc::wakeup(&mut s, &mut hart, 5);
    assert_eq!(state(&s, 0), State::Sleeping(timer::TICK_CHAN));
    proc::wakeup(&mut s, &mut hart, timer::TICK_CHAN);
    switch(&mut s, &mut hart, 0);
    assert!(timer::sleep_ticks(&t, &mut s, &mut hart, target).is_some());
    timer::on_tick(&mut t, 0);
    proc::wakeup(&mut s, &mut hart, timer::TICK_CHAN);
    switch(&mut s, &mut hart, 0);
    assert!(timer::sleep_ticks(&t, &mut s, &mut hart, target).is_none());
}
