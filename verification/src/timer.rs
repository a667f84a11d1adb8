//! Timer interrupts.
//!
//! QEMU virt's timebase runs at 10 MHz. Arming a deadline raises a supervisor
//! timer interrupt once the time reaches it; arming the next one clears the
//! pending interrupt.
use vstd::prelude::*;

use crate::proc;
use crate::proc::{Handoff, Scheduler, State};
use crate::riscv;
use crate::riscv::Hart;
use crate::spinlock;

verus! {

/// Wait channel signaled by every timer tick (arbitrary unique token).
pub const TICK_CHAN: u64 = 0x711c_c4a7;

/// QEMU virt timebase, in Hz.
pub const TIMEBASE_FREQ: u64 = 10_000_000;

/// Scheduler tick rate.
pub const TICK_HZ: u64 = 100;

/// Timebase units between two ticks.
pub const TICK_INTERVAL: u64 = 100_000;

/// The tick counter.
pub struct Timer {
    ticks: u64,
}

impl Timer {
    /// Ticks since boot, modulo the size of the counter.
    pub closed spec fn ticks(self) -> u64 {
        self.ticks
    }

    /// No tick yet.
    pub fn new() -> (t: Timer)
        ensures
            t.ticks() == 0,
    {
        Timer { ticks: 0 }
    }
}

/// The deadline of the first tick, seen from `time`. Interrupts need not be
/// enabled yet; the interrupt pends until they are.
pub fn init(time: u64) -> (deadline: u64)
    requires
        time + TICK_INTERVAL <= u64::MAX,
    ensures
        deadline == time + TICK_INTERVAL,
{
    time + TICK_INTERVAL
}

/// Called from the trap handler on every timer interrupt: count the tick and
/// return the next deadline, seen from `time`.
pub fn on_tick(t: &mut Timer, time: u64) -> (deadline: u64)
    requires
        time + TICK_INTERVAL <= u64::MAX,
    ensures
        final(t).ticks() == old(t).ticks().wrapping_add(1),
        deadline == time + TICK_INTERVAL,
{
    t.ticks = t.ticks.wrapping_add(1);
    time + TICK_INTERVAL
}

/// Ticks since boot (one every 1/TICK_HZ seconds).
pub fn ticks(t: &Timer) -> (n: u64)
    ensures
        n == t.ticks(),
{
    t.ticks
}

/// Milliseconds since boot, straight from the timebase.
pub fn uptime_ms(time: u64) -> (ms: u64)
    ensures
        ms == time / 10_000,
{
    time / (TIMEBASE_FREQ / 1000)
}

/// The tick count at which a sleep of `n` ticks is over.
pub fn sleep_target(t: &Timer, n: u64) -> (target: u64)
    requires
        t.ticks() + n <= u64::MAX,
    ensures
        target == t.ticks() + n,
{
    t.ticks + n
}

/// One round of sleeping until `target`: None once that tick has come;
/// otherwise the calling thread sleeps until the next tick, and asks again. The
/// check and the sleep are one step, so a tick (and its wakeup) cannot slip in
/// between.
pub fn sleep_ticks(t: &Timer, s: &mut Scheduler, hart: &mut Hart, target: u64) -> (h: Option<
    Handoff,
>)
    requires
        old(s).wf(),
        old(s).current is Some,
        old(hart).noff == 0,
        spinlock::hart_ok(*old(hart)),
    ensures
        final(s).wf(),
        spinlock::hart_ok(*final(hart)),
        if t.ticks() < target {
            let slot = old(s).current->0;
            &&& h == Some(Handoff { slot, intena: riscv::sie_on(old(hart).sstatus) })
            &&& final(s).procs@ == proc::moved(
                old(s).procs@,
                slot as int,
                State::Sleeping(TICK_CHAN),
            )
            &&& *final(s) == (Scheduler { procs: final(s).procs, ..*old(s) })
            &&& *final(hart) == spinlock::pushed(*old(hart))
        } else {
            &&& h is None
            &&& *final(s) == *old(s)
            &&& *final(hart) == *old(hart)
        },
{
    if ticks(t) < target {
        spinlock::push_off(hart);
        Some(proc::sleep(s, hart, TICK_CHAN))
    } else {
        None
    }
}

} // verus!
