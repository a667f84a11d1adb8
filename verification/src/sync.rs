//! Blocking synchronization primitives built on the scheduler's sleep/wakeup:
//! a counting semaphore and a bounded blocking channel.
//!
//! Correctness rests on the same single-hart, interrupts-off argument as the
//! rest of the kernel. A semaphore's `wait` checks the count and sleeps under
//! one level of interrupt-disable, so on this hart nothing can run between the
//! check and the sleep, and a concurrent `signal` can't be lost.
//!
//! A call that has to block returns the handoff of the calling thread; when
//! the thread runs again, it makes the call again.
use std::collections::VecDeque;
use vstd::prelude::*;

use crate::proc;
use crate::proc::{Handoff, Scheduler, State};
use crate::riscv;
use crate::riscv::Hart;
use crate::spinlock;
use crate::spinlock::{SpinLock, SpinLockGuard};

verus! {

/// The hart is as before, but for the remembered interrupt intent.
pub open spec fn calm(before: Hart, after: Hart) -> bool {
    &&& after == (Hart { intena: after.intena, ..before })
    &&& spinlock::hart_ok(after)
}

/// A critical section leaves the hart calm.
pub proof fn lemma_section(hart: Hart)
    requires
        hart.noff < u64::MAX,
        spinlock::hart_ok(hart),
    ensures
        calm(hart, proc::section(hart)),
{
    spinlock::lemma_push_pop(hart);
}

/// Doing nothing leaves the hart calm.
pub proof fn lemma_calm(hart: Hart)
    requires
        spinlock::hart_ok(hart),
    ensures
        calm(hart, hart),
{
}

/// A counting semaphore. `wait` (P) blocks while the count is zero; `signal`
/// (V) raises it and wakes one or more waiters.
pub struct Semaphore {
    count: SpinLock<u64>,
    /// The sleep/wakeup channel: the semaphore's own address.
    chan: u64,
}

impl Semaphore {
    /// The count.
    pub closed spec fn value(self) -> int {
        self.count.held() as int
    }

    /// The wait channel.
    pub closed spec fn chan(self) -> u64 {
        self.chan
    }

    /// The count is free to be locked.
    pub closed spec fn wf(self) -> bool {
        self.count.wf() && !self.count.locked()
    }

    /// A semaphore with the count `initial`, whose waiters sleep on `chan`.
    pub fn new(initial: u64, chan: u64) -> (sem: Semaphore)
        ensures
            sem.wf(),
            sem.value() == initial,
            sem.chan() == chan,
    {
        Semaphore { count: SpinLock::new("sem", initial), chan }
    }

    /// One round of decrementing: None once the count was positive and is one
    /// less; otherwise the calling thread sleeps until a signal, and asks again.
    pub fn wait(&mut self, s: &mut Scheduler, hart: &mut Hart) -> (h: Option<Handoff>)
        requires
            old(self).wf(),
            old(s).wf(),
            old(s).current is Some,
            old(hart).noff == 0,
            spinlock::hart_ok(*old(hart)),
        ensures
            final(self).wf(),
            final(self).chan() == old(self).chan(),
            final(s).wf(),
            waited(*old(self), *final(self), *old(s), *final(s), *old(hart), *final(hart), h),
    {
        proof {
            lemma_section(*hart);
        }
        spinlock::push_off(hart);
        proof {
            spinlock::lemma_push_pop(*hart);
        }
        let mut guard: SpinLockGuard<u64> = self.count.lock(hart);
        let count: u64 = *guard.deref();
        if count > 0 {
            *guard.deref_mut() = count - 1;
            self.count.release(guard, hart);
            spinlock::pop_off(hart);
            return None;
        }
        self.count.release(guard, hart);
        // Count is zero: sleep atomically with respect to any signal, since
        // interrupts are off and nothing yields between check and sleep.
        Some(proc::sleep(s, hart, self.chan))
    }

    /// Increment and wake waiters.
    pub fn signal(&mut self, s: &mut Scheduler, hart: &mut Hart)
        requires
            old(self).wf(),
            old(self).value() < u64::MAX,
            old(s).wf(),
            old(hart).noff < u64::MAX - 1,
            spinlock::hart_ok(*old(hart)),
        ensures
            final(self).wf(),
            final(self).chan() == old(self).chan(),
            final(s).wf(),
            signaled(*old(self), *final(self), *old(s), *final(s)),
            calm(*old(hart), *final(hart)),
    {
        proof {
            lemma_section(*hart);
            lemma_section(proc::section(*hart));
        }
        spinlock::push_off(hart);
        proof {
            spinlock::lemma_push_pop(*hart);
        }
        let mut guard: SpinLockGuard<u64> = self.count.lock(hart);
        let count: u64 = *guard.deref();
        *guard.deref_mut() = count + 1;
        self.count.release(guard, hart);
        spinlock::pop_off(hart);
        proc::wakeup(s, hart, self.chan);
    }
}

/// What a round of waiting does: a positive count goes down by one; at zero the calling
/// thread goes to sleep.
pub open spec fn waited(
    sem1: Semaphore,
    sem2: Semaphore,
    s1: Scheduler,
    s2: Scheduler,
    h1: Hart,
    h2: Hart,
    h: Option<Handoff>,
) -> bool {
    if sem1.value() > 0 {
        &&& h is None
        &&& sem2.value() == sem1.value() - 1
        &&& s2 == s1
        &&& calm(h1, h2)
    } else {
        let slot = s1.current->0;
        &&& h == Some(Handoff { slot, intena: riscv::sie_on(h1.sstatus) })
        &&& sem2.value() == sem1.value()
        &&& s2.procs@ == proc::moved(s1.procs@, slot as int, State::Sleeping(sem1.chan()))
        &&& s2 == (Scheduler { procs: s2.procs, ..s1 })
        &&& h2 == spinlock::pushed(h1)
        &&& spinlock::hart_ok(h2)
    }
}

/// What a signal does: the count goes up by one, and whoever waits is runnable.
pub open spec fn signaled(sem1: Semaphore, sem2: Semaphore, s1: Scheduler, s2: Scheduler) -> bool {
    &&& sem2.value() == sem1.value() + 1
    &&& s2.procs@ == proc::woken(s1.procs@, sem1.chan())
    &&& s2 == (Scheduler { procs: s2.procs, ..s1 })
}

/// What sending does: with a slot free, the item is behind the others and receivers are
/// runnable; otherwise the calling thread goes to sleep, and the item comes back.
pub open spec fn send_done<T>(
    c1: Channel<T>,
    c2: Channel<T>,
    s1: Scheduler,
    s2: Scheduler,
    h1: Hart,
    h2: Hart,
    item: T,
    r: Result<(), (T, Handoff)>,
) -> bool {
    if c1.free() > 0 {
        &&& r is Ok
        &&& c2.items() == c1.items().push(item)
        &&& c2.ins() == c1.ins().push(item)
        &&& c2.free() == c1.free() - 1
        &&& c2.ready() == c1.ready() + 1
        &&& s2.procs@ == proc::woken(s1.procs@, c1.chans().1)
        &&& s2 == (Scheduler { procs: s2.procs, ..s1 })
        &&& calm(h1, h2)
    } else {
        let slot = s1.current->0;
        &&& r == Err::<(), (T, Handoff)>(
            (item, Handoff { slot, intena: riscv::sie_on(h1.sstatus) }),
        )
        &&& c2.items() == c1.items()
        &&& c2.ins() == c1.ins()
        &&& c2.free() == c1.free()
        &&& c2.ready() == c1.ready()
        &&& s2.procs@ == proc::moved(s1.procs@, slot as int, State::Sleeping(c1.chans().0))
        &&& s2 == (Scheduler { procs: s2.procs, ..s1 })
        &&& h2 == spinlock::pushed(h1)
        &&& spinlock::hart_ok(h2)
    }
}

/// What receiving does: with an item ready, the oldest one comes out and senders are
/// runnable; otherwise the calling thread goes to sleep.
pub open spec fn recv_done<T>(
    c1: Channel<T>,
    c2: Channel<T>,
    s1: Scheduler,
    s2: Scheduler,
    h1: Hart,
    h2: Hart,
    r: Result<T, Handoff>,
) -> bool {
    if c1.ready() > 0 {
        &&& c1.items().len() > 0
        &&& r == Ok::<T, Handoff>(c1.items()[0])
        &&& c2.items() == c1.items().drop_first()
        &&& c2.outs() == c1.outs().push(c1.items()[0])
        &&& c2.free() == c1.free() + 1
        &&& c2.ready() == c1.ready() - 1
        &&& s2.procs@ == proc::woken(s1.procs@, c1.chans().0)
        &&& s2 == (Scheduler { procs: s2.procs, ..s1 })
        &&& calm(h1, h2)
    } else {
        let slot = s1.current->0;
        &&& r == Err::<T, Handoff>(Handoff { slot, intena: riscv::sie_on(h1.sstatus) })
        &&& c2.items() == c1.items()
        &&& c2.outs() == c1.outs()
        &&& c2.free() == c1.free()
        &&& c2.ready() == c1.ready()
        &&& s2.procs@ == proc::moved(s1.procs@, slot as int, State::Sleeping(c1.chans().1))
        &&& s2 == (Scheduler { procs: s2.procs, ..s1 })
        &&& h2 == spinlock::pushed(h1)
        &&& spinlock::hart_ok(h2)
    }
}

/// A bounded, blocking, multi-producer/multi-consumer queue. `send` blocks
/// while full, `recv` blocks while empty. The two semaphores count free and
/// filled slots, so the buffer never overruns its capacity and no `recv` ever
/// observes an empty buffer.
///
/// Sending is three steps (`reserve`, `put`, `announce`) and so is receiving
/// (`claim`, `take`, `vacate`); a thread may be preempted between any two of
/// them. The invariant holds after every single step, whatever the order in
/// which threads take theirs.
pub struct Channel<T> {
    buf: SpinLock<VecDeque<T>>,
    /// Free slots.
    empty: Semaphore,
    /// Filled slots.
    full: Semaphore,
    capacity: Ghost<int>,
    /// Senders that hold a free slot and have not filled it yet.
    sending: Ghost<int>,
    /// Filled slots that are not announced yet.
    sent: Ghost<int>,
    /// Receivers that hold a filled slot and have not emptied it yet.
    receiving: Ghost<int>,
    /// Emptied slots that are not given back yet.
    received: Ghost<int>,
    /// Everything that was ever put in, in order.
    ins: Ghost<Seq<T>>,
    /// Everything that was ever taken out, in order.
    outs: Ghost<Seq<T>>,
}

impl<T> Channel<T> {
    /// The items in the channel, oldest first.
    pub closed spec fn items(self) -> Seq<T> {
        self.buf.held()@
    }

    /// How many items the channel holds at most.
    pub closed spec fn capacity(self) -> int {
        self.capacity@
    }

    /// Free slots nobody holds.
    pub closed spec fn free(self) -> int {
        self.empty.value()
    }

    /// Filled slots nobody holds.
    pub closed spec fn ready(self) -> int {
        self.full.value()
    }

    /// Senders between `reserve` and `put`.
    pub closed spec fn sending(self) -> int {
        self.sending@
    }

    /// Senders between `put` and `announce`.
    pub closed spec fn sent(self) -> int {
        self.sent@
    }

    /// Receivers between `claim` and `take`.
    pub closed spec fn receiving(self) -> int {
        self.receiving@
    }

    /// Receivers between `take` and `vacate`.
    pub closed spec fn received(self) -> int {
        self.received@
    }

    /// Everything that was ever put in, in order.
    pub closed spec fn ins(self) -> Seq<T> {
        self.ins@
    }

    /// Everything that was ever taken out, in order.
    pub closed spec fn outs(self) -> Seq<T> {
        self.outs@
    }

    /// Wait channels of blocked senders and receivers.
    pub closed spec fn chans(self) -> (u64, u64) {
        (self.empty.chan(), self.full.chan())
    }

    /// Every slot is accounted for, and what went in is what came out followed
    /// by what is still inside.
    pub closed spec fn wf(self) -> bool {
        &&& self.buf.wf()
        &&& !self.buf.locked()
        &&& self.empty.wf()
        &&& self.full.wf()
        &&& self.sending@ >= 0
        &&& self.sent@ >= 0
        &&& self.receiving@ >= 0
        &&& self.received@ >= 0
        &&& self.empty.value() >= 0
        &&& self.full.value() >= 0
        &&& self.capacity@ <= u64::MAX
        &&& self.empty.value() + self.sending@ + self.buf.held()@.len() + self.received@
            == self.capacity@
        &&& self.full.value() + self.sent@ + self.receiving@ == self.buf.held()@.len()
        &&& self.ins@ == self.outs@ + self.buf.held()@
    }

    /// The channel is the same but for the number of threads in flight.
    pub open spec fn same_flow(self, other: Channel<T>) -> bool {
        &&& other.capacity() == self.capacity()
        &&& other.chans() == self.chans()
        &&& other.items() == self.items()
        &&& other.ins() == self.ins()
        &&& other.outs() == self.outs()
    }

    /// A channel that holds at most `capacity` items. Blocked senders sleep on
    /// the first channel, blocked receivers on the second.
    pub fn new(capacity: u64, chans: (u64, u64)) -> (c: Channel<T>)
        ensures
            c.wf(),
            c.capacity() == capacity,
            c.free() == capacity,
            c.ready() == 0,
            c.items() == Seq::<T>::empty(),
            c.ins() == Seq::<T>::empty(),
            c.outs() == Seq::<T>::empty(),
            c.sending() == 0,
            c.sent() == 0,
            c.receiving() == 0,
            c.received() == 0,
            c.chans() == chans,
    {
        let buf: VecDeque<T> = VecDeque::new();
        let c: Channel<T> = Channel {
            buf: SpinLock::new("chan", buf),
            empty: Semaphore::new(capacity, chans.0),
            full: Semaphore::new(0, chans.1),
            capacity: Ghost(capacity as int),
            sending: Ghost(0),
            sent: Ghost(0),
            receiving: Ghost(0),
            received: Ghost(0),
            ins: Ghost(Seq::empty()),
            outs: Ghost(Seq::empty()),
        };
        assert(c.ins@ =~= c.outs@ + c.buf.held()@);
        c
    }

    /// First step of sending: hold a free slot, blocking while there is none.
    pub fn reserve(&mut self, s: &mut Scheduler, hart: &mut Hart) -> (h: Option<Handoff>)
        requires
            old(self).wf(),
            old(s).wf(),
            old(s).current is Some,
            old(hart).noff == 0,
            spinlock::hart_ok(*old(hart)),
        ensures
            final(self).wf(),
            old(self).same_flow(*final(self)),
            final(self).ready() == old(self).ready(),
            final(self).sent() == old(self).sent(),
            final(self).receiving() == old(self).receiving(),
            final(self).received() == old(self).received(),
            final(s).wf(),
            if old(self).free() > 0 {
                &&& h is None
                &&& final(self).free() == old(self).free() - 1
                &&& final(self).sending() == old(self).sending() + 1
                &&& *final(s) == *old(s)
                &&& calm(*old(hart), *final(hart))
            } else {
                let slot = old(s).current->0;
                &&& h == Some(Handoff { slot, intena: riscv::sie_on(old(hart).sstatus) })
                &&& final(self).free() == old(self).free()
                &&& final(self).sending() == old(self).sending()
                &&& final(s).procs@ == proc::moved(
                    old(s).procs@,
                    slot as int,
                    State::Sleeping(old(self).chans().0),
                )
                &&& *final(s) == (Scheduler { procs: final(s).procs, ..*old(s) })
                &&& *final(hart) == spinlock::pushed(*old(hart))
                &&& spinlock::hart_ok(*final(hart))
            },
    {
        let h: Option<Handoff> = self.empty.wait(s, hart);
        if h.is_none() {
            let ghost n = self.sending@ + 1;
            self.sending = Ghost(n);
        }
        h
    }

    /// Second step of sending: fill the slot that is held.
    pub fn put(&mut self, hart: &mut Hart, item: T)
        requires
            old(self).wf(),
            old(self).sending() > 0,
            old(hart).noff < u64::MAX,
            spinlock::hart_ok(*old(hart)),
        ensures
            final(self).wf(),
            final(self).capacity() == old(self).capacity(),
            final(self).chans() == old(self).chans(),
            final(self).items() == old(self).items().push(item),
            final(self).ins() == old(self).ins().push(item),
            final(self).outs() == old(self).outs(),
            final(self).free() == old(self).free(),
            final(self).ready() == old(self).ready(),
            final(self).sending() == old(self).sending() - 1,
            final(self).sent() == old(self).sent() + 1,
            final(self).receiving() == old(self).receiving(),
            final(self).received() == old(self).received(),
            calm(*old(hart), *final(hart)),
    {
        proof {
            lemma_section(*hart);
        }
        let ghost ins = self.ins@.push(item);
        let mut guard: SpinLockGuard<VecDeque<T>> = self.buf.lock(hart);
        guard.deref_mut().push_back(item);
        self.buf.release(guard, hart);
        let ghost n = self.sending@ - 1;
        self.sending = Ghost(n);
        let ghost k = self.sent@ + 1;
        self.sent = Ghost(k);
        self.ins = Ghost(ins);
        assert(self.ins@ =~= self.outs@ + self.buf.held()@);
    }

    /// Third step of sending: count the slot as filled and wake receivers.
    pub fn announce(&mut self, s: &mut Scheduler, hart: &mut Hart)
        requires
            old(self).wf(),
            old(self).sent() > 0,
            old(s).wf(),
            old(hart).noff < u64::MAX - 1,
            spinlock::hart_ok(*old(hart)),
        ensures
            final(self).wf(),
            old(self).same_flow(*final(self)),
            final(self).free() == old(self).free(),
            final(self).ready() == old(self).ready() + 1,
            final(self).sending() == old(self).sending(),
            final(self).sent() == old(self).sent() - 1,
            final(self).receiving() == old(self).receiving(),
            final(self).received() == old(self).received(),
            final(s).wf(),
            final(s).procs@ == proc::woken(old(s).procs@, old(self).chans().1),
            *final(s) == (Scheduler { procs: final(s).procs, ..*old(s) }),
            calm(*old(hart), *final(hart)),
    {
        self.full.signal(s, hart);
        let ghost n = self.sent@ - 1;
        self.sent = Ghost(n);
    }

    /// First step of receiving: hold a filled slot, blocking while there is
    /// none.
    pub fn claim(&mut self, s: &mut Scheduler, hart: &mut Hart) -> (h: Option<Handoff>)
        requires
            old(self).wf(),
            old(s).wf(),
            old(s).current is Some,
            old(hart).noff == 0,
            spinlock::hart_ok(*old(hart)),
        ensures
            final(self).wf(),
            old(self).same_flow(*final(self)),
            final(self).free() == old(self).free(),
            final(self).sending() == old(self).sending(),
            final(self).sent() == old(self).sent(),
            final(self).received() == old(self).received(),
            final(s).wf(),
            if old(self).ready() > 0 {
                &&& h is None
                &&& final(self).ready() == old(self).ready() - 1
                &&& final(self).receiving() == old(self).receiving() + 1
                &&& *final(s) == *old(s)
                &&& calm(*old(hart), *final(hart))
            } else {
                let slot = old(s).current->0;
                &&& h == Some(Handoff { slot, intena: riscv::sie_on(old(hart).sstatus) })
                &&& final(self).ready() == old(self).ready()
                &&& final(self).receiving() == old(self).receiving()
                &&& final(s).procs@ == proc::moved(
                    old(s).procs@,
                    slot as int,
                    State::Sleeping(old(self).chans().1),
                )
                &&& *final(s) == (Scheduler { procs: final(s).procs, ..*old(s) })
                &&& *final(hart) == spinlock::pushed(*old(hart))
                &&& spinlock::hart_ok(*final(hart))
            },
    {
        let h: Option<Handoff> = self.full.wait(s, hart);
        if h.is_none() {
            let ghost n = self.receiving@ + 1;
            self.receiving = Ghost(n);
        }
        h
    }

    /// Second step of receiving: empty the slot that is held. There is always
    /// an item.
    pub fn take(&mut self, hart: &mut Hart) -> (item: T)
        requires
            old(self).wf(),
            old(self).receiving() > 0,
            old(hart).noff < u64::MAX,
            spinlock::hart_ok(*old(hart)),
        ensures
            final(self).wf(),
            old(self).items().len() > 0,
            item == old(self).items()[0],
            final(self).capacity() == old(self).capacity(),
            final(self).chans() == old(self).chans(),
            final(self).items() == old(self).items().drop_first(),
            final(self).ins() == old(self).ins(),
            final(self).outs() == old(self).outs().push(item),
            final(self).free() == old(self).free(),
            final(self).ready() == old(self).ready(),
            final(self).sending() == old(self).sending(),
            final(self).sent() == old(self).sent(),
            final(self).receiving() == old(self).receiving() - 1,
            final(self).received() == old(self).received() + 1,
            calm(*old(hart), *final(hart)),
    {
        proof {
            lemma_section(*hart);
        }
        let ghost outs = self.outs@.push(self.items()[0]);
        let mut guard: SpinLockGuard<VecDeque<T>> = self.buf.lock(hart);
        let item: T = guard.deref_mut().pop_front().unwrap();
        self.buf.release(guard, hart);
        let ghost n = self.receiving@ - 1;
        self.receiving = Ghost(n);
        let ghost k = self.received@ + 1;
        self.received = Ghost(k);
        self.outs = Ghost(outs);
        proof {
            assert(self.buf.held()@ =~= old(self).items().drop_first());
            assert(self.ins@ =~= self.outs@ + self.buf.held()@);
        }
        item
    }

    /// Third step of receiving: give the emptied slot back and wake senders.
    pub fn vacate(&mut self, s: &mut Scheduler, hart: &mut Hart)
        requires
            old(self).wf(),
            old(self).received() > 0,
            old(s).wf(),
            old(hart).noff < u64::MAX - 1,
            spinlock::hart_ok(*old(hart)),
        ensures
            final(self).wf(),
            old(self).same_flow(*final(self)),
            final(self).free() == old(self).free() + 1,
            final(self).ready() == old(self).ready(),
            final(self).sending() == old(self).sending(),
            final(self).sent() == old(self).sent(),
            final(self).receiving() == old(self).receiving(),
            final(self).received() == old(self).received() - 1,
            final(s).wf(),
            final(s).procs@ == proc::woken(old(s).procs@, old(self).chans().0),
            *final(s) == (Scheduler { procs: final(s).procs, ..*old(s) }),
            calm(*old(hart), *final(hart)),
    {
        self.empty.signal(s, hart);
        let ghost n = self.received@ - 1;
        self.received = Ghost(n);
    }

    /// Enqueue `item`, blocking while the channel is full: the item comes back
    /// with the handoff of the calling thread, to be sent again.
    pub fn send(&mut self, s: &mut Scheduler, hart: &mut Hart, item: T) -> (r: Result<
        (),
        (T, Handoff),
    >)
        requires
            old(self).wf(),
            old(s).wf(),
            old(s).current is Some,
            old(hart).noff == 0,
            spinlock::hart_ok(*old(hart)),
        ensures
            final(self).wf(),
            final(self).capacity() == old(self).capacity(),
            final(self).chans() == old(self).chans(),
            final(self).sending() == old(self).sending(),
            final(self).sent() == old(self).sent(),
            final(self).receiving() == old(self).receiving(),
            final(self).received() == old(self).received(),
            final(self).outs() == old(self).outs(),
            final(s).wf(),
            send_done(
                *old(self),
                *final(self),
                *old(s),
                *final(s),
                *old(hart),
                *final(hart),
                item,
                r,
            ),
    {
        match self.reserve(s, hart) {
            Some(h) => Err((item, h)),
            None => {
                self.put(hart, item);
                self.announce(s, hart);
                Ok(())
            },
        }
    }

    /// Dequeue an item, blocking while the channel is empty: the handoff of the
    /// calling thread, which asks again.
    pub fn recv(&mut self, s: &mut Scheduler, hart: &mut Hart) -> (r: Result<T, Handoff>)
        requires
            old(self).wf(),
            old(s).wf(),
            old(s).current is Some,
            old(hart).noff == 0,
            spinlock::hart_ok(*old(hart)),
        ensures
            final(self).wf(),
            final(self).capacity() == old(self).capacity(),
            final(self).chans() == old(self).chans(),
            final(self).sending() == old(self).sending(),
            final(self).sent() == old(self).sent(),
            final(self).receiving() == old(self).receiving(),
            final(self).received() == old(self).received(),
            final(self).ins() == old(self).ins(),
            final(s).wf(),
            recv_done(*old(self), *final(self), *old(s), *final(s), *old(hart), *final(hart), r),
    {
        match self.claim(s, hart) {
            Some(h) => Err(h),
            None => {
                let item: T = self.take(hart);
                self.vacate(s, hart);
                Ok(item)
            },
        }
    }
}

/// A count is never negative.
pub proof fn lemma_counts(sem: Semaphore)
    ensures
        0 <= sem.value() <= u64::MAX,
{
}

/// Every slot of a channel is free, held by a sender, filled, or emptied and not
/// yet given back; every filled slot is ready, not yet announced, or held by a
/// receiver. So a channel never holds more than its capacity, however many
/// threads are between two steps; and with none of them in flight, `send` blocks
/// exactly when it is full and `recv` exactly when it is empty.
pub proof fn lemma_bounded<T>(c: Channel<T>)
    requires
        c.wf(),
    ensures
        c.free() >= 0,
        c.ready() >= 0,
        c.sending() >= 0,
        c.sent() >= 0,
        c.receiving() >= 0,
        c.received() >= 0,
        c.free() + c.sending() + c.items().len() + c.received() == c.capacity(),
        c.ready() + c.sent() + c.receiving() == c.items().len(),
        c.items().len() <= c.capacity(),
        c.sending() == 0 && c.received() == 0 ==> (c.free() == 0 <==> c.items().len()
            == c.capacity()),
        c.sent() == 0 && c.receiving() == 0 ==> (c.ready() == 0 <==> c.items().len() == 0),
{
}

/// Nothing is lost, duplicated or reordered: what has come out of a channel so
/// far, followed by what is inside, is exactly what has gone in.
pub proof fn lemma_fifo<T>(c: Channel<T>)
    requires
        c.wf(),
    ensures
        c.ins() == c.outs() + c.items(),
{
}

/// The calling thread has gone to sleep and nothing else has changed.
pub open spec fn fell_asleep(s1: Scheduler, s2: Scheduler, h: Handoff) -> bool {
    let c = s1.current->0 as int;
    &&& s1.current == Some(h.slot)
    &&& s2.current == s1.current
    &&& s2.procs@.len() == s1.procs@.len()
    &&& s2.procs@[c] is Some
    &&& s2.procs@[c]->0.state is Sleeping
    &&& forall|i: int|
        0 <= i < s1.procs@.len() && i != c ==> #[trigger] s2.procs@[i] == s1.procs@[i]
}

/// Waiting takes one off a count that is positive, and otherwise puts the caller to
/// sleep: no more waits get through than the count and the signals allow.
pub proof fn lemma_wait(
    sem1: Semaphore,
    sem2: Semaphore,
    s1: Scheduler,
    s2: Scheduler,
    h1: Hart,
    h2: Hart,
    h: Option<Handoff>,
)
    requires
        s1.wf(),
        s1.current is Some,
        waited(sem1, sem2, s1, s2, h1, h2, h),
    ensures
        h is None <==> sem1.value() >= 1,
        h is None ==> sem2.value() + 1 == sem1.value() && s2.procs@ == s1.procs@,
        h is Some ==> sem2.value() == sem1.value() && fell_asleep(s1, s2, h->0),
{
    lemma_counts(sem1);
    assert(proc::at(s1.procs@, s1.current->0 as int) is Some);
}

/// A thread that went to sleep waiting is runnable after the next signal, and a wait then
/// gets through.
pub proof fn lemma_signal_wakes(
    sem1: Semaphore,
    sem2: Semaphore,
    s1: Scheduler,
    s2: Scheduler,
    h1: Hart,
    h2: Hart,
    h: Handoff,
    sem3: Semaphore,
    sem4: Semaphore,
    s3: Scheduler,
    s4: Scheduler,
)
    requires
        s1.wf(),
        s1.current is Some,
        waited(sem1, sem2, s1, s2, h1, h2, Some(h)),
        sem3.chan() == sem1.chan(),
        signaled(sem3, sem4, s3, s4),
        proc::at(s3.procs@, h.slot as int) is Some,
        proc::at(s3.procs@, h.slot as int)->0.state == proc::at(s2.procs@, h.slot as int)->0.state,
    ensures
        proc::at(s4.procs@, h.slot as int) matches Some(p) && p.state is Runnable,
        sem4.value() == sem3.value() + 1,
        sem4.value() >= 1,
{
    lemma_counts(sem3);
    assert(proc::at(s1.procs@, s1.current->0 as int) is Some);
}

/// With no other thread between two steps, sending blocks exactly when the channel is
/// full, and otherwise the item stands behind those that are inside.
pub proof fn lemma_send<T>(
    c1: Channel<T>,
    c2: Channel<T>,
    s1: Scheduler,
    s2: Scheduler,
    h1: Hart,
    h2: Hart,
    item: T,
    r: Result<(), (T, Handoff)>,
)
    requires
        c1.wf(),
        c1.sending() == 0,
        c1.received() == 0,
        s1.wf(),
        s1.current is Some,
        send_done(c1, c2, s1, s2, h1, h2, item, r),
    ensures
        r is Ok <==> c1.items().len() < c1.capacity(),
        r is Ok ==> c2.items() == c1.items() + seq![item],
        r is Err ==> r->Err_0.0 == item && c2.items() == c1.items() && fell_asleep(
            s1,
            s2,
            r->Err_0.1,
        ),
{
    lemma_bounded(c1);
    assert(c1.items().push(item) =~= c1.items() + seq![item]);
    assert(proc::at(s1.procs@, s1.current->0 as int) is Some);
}

/// With no other thread between two steps, receiving blocks exactly when the channel is
/// empty, and otherwise gives the item that went in first.
pub proof fn lemma_recv<T>(
    c1: Channel<T>,
    c2: Channel<T>,
    s1: Scheduler,
    s2: Scheduler,
    h1: Hart,
    h2: Hart,
    r: Result<T, Handoff>,
)
    requires
        c1.wf(),
        c1.sent() == 0,
        c1.receiving() == 0,
        s1.wf(),
        s1.current is Some,
        recv_done(c1, c2, s1, s2, h1, h2, r),
    ensures
        r is Ok <==> c1.items().len() > 0,
        r is Ok ==> c1.items() == seq![r->Ok_0] + c2.items(),
        r is Err ==> c2.items() == c1.items() && fell_asleep(s1, s2, r->Err_0),
{
    lemma_bounded(c1);
    if c1.items().len() > 0 {
        assert(c1.items() =~= seq![c1.items()[0]] + c1.items().drop_first());
    }
    assert(proc::at(s1.procs@, s1.current->0 as int) is Some);
}

/// A receiver that found the channel empty is runnable once something was sent, and a
/// sender that found it full once something was received.
pub proof fn lemma_channel_wakes<T>(
    c1: Channel<T>,
    c2: Channel<T>,
    c3: Channel<T>,
    c4: Channel<T>,
    s1: Scheduler,
    s2: Scheduler,
    s3: Scheduler,
    s4: Scheduler,
    h1: Hart,
    h2: Hart,
    h3: Hart,
    h4: Hart,
    item: T,
    slot: int,
)
    requires
        s1.wf(),
        s1.current == Some(slot as usize),
        0 <= slot <= usize::MAX,
        c3.chans() == c1.chans(),
        proc::at(s3.procs@, slot) is Some,
        proc::at(s3.procs@, slot)->0.state == proc::at(s2.procs@, slot)->0.state,
        ({
            ||| exists|h: Handoff|
                #[trigger] recv_done(c1, c2, s1, s2, h1, h2, Err::<T, Handoff>(h)) && send_done(
                    c3,
                    c4,
                    s3,
                    s4,
                    h3,
                    h4,
                    item,
                    Ok::<(), (T, Handoff)>(()),
                )
            ||| exists|h: Handoff|
                #[trigger] send_done(
                    c1,
                    c2,
                    s1,
                    s2,
                    h1,
                    h2,
                    item,
                    Err::<(), (T, Handoff)>((item, h)),
                ) && recv_done(c3, c4, s3, s4, h3, h4, Ok::<T, Handoff>(c3.items()[0]))
        }),
    ensures
        proc::at(s4.procs@, slot) matches Some(p) && p.state is Runnable,
{
    assert(proc::at(s1.procs@, slot) is Some);
}

} // verus!
