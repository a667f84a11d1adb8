//! Kernel console: what goes out over the serial port, and the interrupt-fed
//! input buffer readers pull from.
use vstd::prelude::*;

use crate::proc;
use crate::proc::{Handoff, Scheduler, State};
use crate::riscv;
use crate::riscv::Hart;
use crate::spinlock;
use crate::spinlock::{SpinLock, SpinLockGuard};

verus! {

/// Bytes the input buffer holds.
pub const INPUT_CAP: u64 = 256;

/// The bytes to transmit for `bytes`: a carriage return goes in front of every
/// newline.
pub open spec fn cooked(bytes: Seq<u8>) -> Seq<u8>
    decreases bytes.len(),
{
    if bytes.len() == 0 {
        Seq::empty()
    } else {
        let rest = cooked(bytes.drop_last());
        if bytes.last() == 10 {
            rest.push(13).push(10)
        } else {
            rest.push(bytes.last())
        }
    }
}

/// The bytes to transmit for `bytes`.
pub fn cook(bytes: &[u8]) -> (out: Vec<u8>)
    ensures
        out@ == cooked(bytes@),
{
    let mut out: Vec<u8> = Vec::new();
    let mut i: usize = 0;
    assert(bytes@.take(0) =~= Seq::<u8>::empty());
    while i < bytes.len()
        invariant
            i <= bytes@.len(),
            out@ == cooked(bytes@.take(i as int)),
        decreases bytes@.len() - i,
    {
        assert(bytes@.take(i as int + 1).drop_last() =~= bytes@.take(i as int));
        if bytes[i] == 10 {
            out.push(13);
        }
        out.push(bytes[i]);
        i = i + 1;
    }
    assert(bytes@.take(i as int) =~= bytes@);
    out
}

/// The bytes to transmit for the string `s`.
pub fn write_str(s: &str) -> (out: Vec<u8>)
    ensures
        out@ == cooked(vstd::utf8::encode_utf8(s@)),
{
    cook(s.as_bytes())
}

/// Ring buffer between the receive interrupt (producer) and console readers
/// (consumers). Indices grow without bound, modulo the size of a word; the
/// distance from `r` to `w` is the fill level, and the remainder modulo the
/// capacity picks the slot.
pub struct Input {
    buf: [u8; 256],
    r: u64,
    w: u64,
}

impl Input {
    /// How many bytes are buffered.
    closed spec fn level(self) -> int {
        if self.r <= self.w {
            self.w - self.r
        } else {
            self.w - self.r + 0x1_0000_0000_0000_0000
        }
    }

    /// The buffered bytes, oldest first.
    pub closed spec fn pending(self) -> Seq<u8> {
        Seq::new(self.level() as nat, |i: int| self.buf@[(self.r + i) % 256])
    }

    /// The fill level is within the capacity.
    pub closed spec fn wf(self) -> bool {
        self.level() <= 256
    }

    /// An empty buffer.
    pub fn new() -> (input: Input)
        ensures
            input.wf(),
            input.pending() == Seq::<u8>::empty(),
    {
        Input { buf: [0; 256], r: 0, w: 0 }
    }

    /// Append `byte`; dropped if the buffer is full.
    fn push(&mut self, byte: u8)
        requires
            old(self).wf(),
        ensures
            final(self).wf(),
            final(self).pending() == if old(self).pending().len() < 256 {
                old(self).pending().push(byte)
            } else {
                old(self).pending()
            },
    {
        if self.w.wrapping_sub(self.r) < INPUT_CAP {
            let slot: usize = (self.w % INPUT_CAP) as usize;
            let ghost before = *self;
            self.buf[slot] = byte;
            self.w = self.w.wrapping_add(1);
            proof {
                let n = before.level();
                let all = before.pending().push(byte);
                assert(self.level() == n + 1);
                assert((before.r + n) % 256 == slot);
                assert forall|i: int| 0 <= i < all.len() implies #[trigger] self.pending()[i]
                    == all[i] by {
                    if i < n {
                        lemma_distinct_slots(before.r + i, before.r + n);
                    }
                }
                assert(self.pending() =~= all);
            }
        }
    }

    /// Remove the oldest byte.
    fn pop(&mut self) -> (byte: Option<u8>)
        requires
            old(self).wf(),
        ensures
            final(self).wf(),
            byte == if old(self).pending().len() > 0 {
                Some(old(self).pending()[0])
            } else {
                None
            },
            final(self).pending() == if old(self).pending().len() > 0 {
                old(self).pending().drop_first()
            } else {
                old(self).pending()
            },
    {
        if self.r == self.w {
            None
        } else {
            let byte: u8 = self.buf[(self.r % INPUT_CAP) as usize];
            let ghost before = *self;
            self.r = self.r.wrapping_add(1);
            proof {
                assert(self.level() == before.level() - 1);
                let rest = before.pending().drop_first();
                assert forall|i: int| 0 <= i < rest.len() implies #[trigger] self.pending()[i]
                    == rest[i] by {
                    assert((self.r + i) % 256 == (before.r + 1 + i) % 256);
                }
                assert(self.pending() =~= rest);
            }
            Some(byte)
        }
    }
}

/// Indices less than the capacity apart pick different slots.
proof fn lemma_distinct_slots(a: int, b: int)
    requires
        0 <= a < b < a + 256,
    ensures
        a % 256 != b % 256,
{
}

/// The console's input side.
pub struct Console {
    /// The ring buffer.
    pub input: SpinLock<Input>,
    /// Wait channel for console input: the buffer's own address.
    pub chan: u64,
}

impl Console {
    /// The buffer is sound and free to be locked.
    pub open spec fn wf(self) -> bool {
        &&& self.input.wf()
        &&& !self.input.locked()
        &&& self.input.held().wf()
    }

    /// The bytes typed and not yet read, oldest first.
    pub open spec fn pending(self) -> Seq<u8> {
        self.input.held().pending()
    }

    /// A console with nothing typed yet.
    pub fn new(chan: u64) -> (c: Console)
        ensures
            c.wf(),
            c.pending() == Seq::<u8>::empty(),
            c.chan == chan,
    {
        Console { input: SpinLock::new("input", Input::new()), chan }
    }
}

/// The byte a reader gets for `byte`: the terminal's carriage return counts as
/// a newline.
pub open spec fn normalized(byte: u8) -> u8 {
    if byte == 13 {
        10
    } else {
        byte
    }
}

/// What a byte that comes in does: it stands behind those typed before while there is
/// room, and readers are runnable.
pub open spec fn typed_in(c1: Console, c2: Console, s1: Scheduler, s2: Scheduler, byte: u8) -> bool {
    &&& c2.pending() == if c1.pending().len() < 256 {
        c1.pending().push(normalized(byte))
    } else {
        c1.pending()
    }
    &&& s2.procs@ == proc::woken(s1.procs@, c1.chan)
    &&& s2 == (Scheduler { procs: s2.procs, ..s1 })
}

/// What reading a byte does: the oldest one comes out, if there is one.
pub open spec fn taken(c1: Console, c2: Console, byte: Option<u8>) -> bool {
    &&& byte == if c1.pending().len() > 0 {
        Some(c1.pending()[0])
    } else {
        None
    }
    &&& c2.pending() == if c1.pending().len() > 0 {
        c1.pending().drop_first()
    } else {
        c1.pending()
    }
}

/// What a round of waiting for a byte does: the oldest one comes out, or the calling
/// thread goes to sleep.
pub open spec fn awaited(
    c1: Console,
    c2: Console,
    s1: Scheduler,
    s2: Scheduler,
    h1: Hart,
    h2: Hart,
    got: Result<u8, Handoff>,
) -> bool {
    if c1.pending().len() > 0 {
        &&& got == Ok::<u8, Handoff>(c1.pending()[0])
        &&& c2.pending() == c1.pending().drop_first()
        &&& s2 == s1
        &&& h2 == proc::section(h1)
    } else {
        let slot = s1.current->0;
        &&& got == Err::<u8, Handoff>(Handoff { slot, intena: riscv::sie_on(h1.sstatus) })
        &&& c2.pending() == c1.pending()
        &&& s2.procs@ == proc::moved(s1.procs@, slot as int, State::Sleeping(c1.chan))
        &&& s2 == (Scheduler { procs: s2.procs, ..s1 })
        &&& h2 == spinlock::pushed(h1)
    }
}

/// Called from the serial interrupt for each received byte. Stores raw bytes
/// (carriage return normalized to newline); echo and line editing are the
/// reader's job. Bytes arriving into a full buffer are dropped. Wakes readers.
pub fn on_input(c: &mut Console, s: &mut Scheduler, hart: &mut Hart, byte: u8)
    requires
        old(c).wf(),
        old(s).wf(),
        old(hart).noff < u64::MAX,
        spinlock::hart_ok(*old(hart)),
    ensures
        final(c).wf(),
        final(c).chan == old(c).chan,
        final(s).wf(),
        typed_in(*old(c), *final(c), *old(s), *final(s), byte),
        *final(hart) == proc::section(proc::section(*old(hart))),
        spinlock::hart_ok(*final(hart)),
{
    let b: u8 = if byte == 13 {
        10
    } else {
        byte
    };
    proof {
        spinlock::lemma_push_pop(*hart);
    }
    let mut guard: SpinLockGuard<Input> = c.input.lock(hart);
    guard.deref_mut().push(b);
    c.input.release(guard, hart);
    proc::wakeup(s, hart, c.chan);
}

/// Pop one byte of console input, or None when the buffer is empty.
pub fn getchar(c: &mut Console, hart: &mut Hart) -> (byte: Option<u8>)
    requires
        old(c).wf(),
        old(hart).noff < u64::MAX,
        spinlock::hart_ok(*old(hart)),
    ensures
        final(c).wf(),
        final(c).chan == old(c).chan,
        taken(*old(c), *final(c), byte),
        *final(hart) == proc::section(*old(hart)),
        spinlock::hart_ok(*final(hart)),
{
    let mut guard: SpinLockGuard<Input> = c.input.lock(hart);
    let byte: Option<u8> = guard.deref_mut().pop();
    c.input.release(guard, hart);
    byte
}

/// One round of waiting for a byte of input: the byte, or the handoff of the
/// calling thread, which sleeps until input arrives and asks again. The check
/// and the sleep are one step with respect to the interrupt that fills the
/// buffer.
pub fn getchar_blocking(c: &mut Console, s: &mut Scheduler, hart: &mut Hart) -> (got: Result<
    u8,
    Handoff,
>)
    requires
        old(c).wf(),
        old(s).wf(),
        old(s).current is Some,
        old(hart).noff == 0,
        spinlock::hart_ok(*old(hart)),
    ensures
        final(c).wf(),
        final(c).chan == old(c).chan,
        final(s).wf(),
        spinlock::hart_ok(*final(hart)),
        awaited(*old(c), *final(c), *old(s), *final(s), *old(hart), *final(hart), got),
{
    spinlock::push_off(hart);
    proof {
        spinlock::lemma_push_pop(*hart);
    }
    match getchar(c, hart) {
        Some(byte) => {
            spinlock::pop_off(hart);
            Ok(byte)
        },
        None => Err(proc::sleep(s, hart, c.chan)),
    }
}

/// Printing text piece by piece sends what printing it at once sends.
pub proof fn lemma_cooked_pieces(a: Seq<u8>, b: Seq<u8>)
    ensures
        cooked(a + b) == cooked(a) + cooked(b),
    decreases b.len(),
{
    if b.len() == 0 {
        assert(a + b =~= a);
        assert(cooked(a) + cooked(b) =~= cooked(a));
    } else {
        lemma_cooked_pieces(a, b.drop_last());
        assert((a + b).drop_last() =~= a + b.drop_last());
        assert(cooked(a + b) =~= cooked(a) + cooked(b));
    }
}

/// What the buffer holds after `bytes` came in on top of `pending`.
pub open spec fn received(pending: Seq<u8>, bytes: Seq<u8>) -> Seq<u8>
    decreases bytes.len(),
{
    if bytes.len() == 0 {
        pending
    } else {
        let before = received(pending, bytes.drop_last());
        if before.len() < 256 {
            before.push(normalized(bytes.last()))
        } else {
            before
        }
    }
}

/// Input is neither lost nor reordered while the buffer has room for it.
pub proof fn lemma_received(pending: Seq<u8>, bytes: Seq<u8>)
    requires
        pending.len() + bytes.len() <= 256,
    ensures
        received(pending, bytes) == pending + bytes.map_values(|b: u8| normalized(b)),
    decreases bytes.len(),
{
    if bytes.len() > 0 {
        lemma_received(pending, bytes.drop_last());
    }
    assert(received(pending, bytes) =~= pending + bytes.map_values(|b: u8| normalized(b)));
}

/// A byte that is typed is the last to come out, a carriage return as a newline and any
/// other byte as it is; with 256 bytes waiting it is dropped. What was typed before stays
/// in order.
pub proof fn lemma_typed(c1: Console, c2: Console, s1: Scheduler, s2: Scheduler, byte: u8)
    requires
        typed_in(c1, c2, s1, s2, byte),
    ensures
        c1.pending().len() < 256 ==> c2.pending().len() == c1.pending().len() + 1
            && c2.pending().drop_last() == c1.pending() && c2.pending().last() == (if byte == 0x0d {
            0x0au8
        } else {
            byte
        }),
        c1.pending().len() >= 256 ==> c2.pending() == c1.pending(),
        c2.pending() == received(c1.pending(), seq![byte]),
{
    let one = seq![byte];
    assert(one.drop_last() =~= Seq::<u8>::empty());
    assert(received(c1.pending(), one.drop_last()) == c1.pending());
    if c1.pending().len() < 256 {
        assert(c2.pending().drop_last() =~= c1.pending());
    }
}

/// Reading takes out what was typed first, and leaves the rest in order.
pub proof fn lemma_taken(c1: Console, c2: Console, byte: Option<u8>)
    requires
        taken(c1, c2, byte),
    ensures
        byte is Some <==> c1.pending().len() > 0,
        byte is Some ==> c1.pending() == seq![byte->0] + c2.pending(),
        byte is None ==> c2.pending() == c1.pending(),
{
    if c1.pending().len() > 0 {
        assert(c1.pending() =~= seq![c1.pending()[0]] + c1.pending().drop_first());
    }
}

/// A reader that found nothing sleeps, and is runnable once a byte is typed; if it looks
/// then, it gets what has been typed first since.
pub proof fn lemma_reader_woken(
    c1: Console,
    c2: Console,
    s1: Scheduler,
    s2: Scheduler,
    h1: Hart,
    h2: Hart,
    h: Handoff,
    c3: Console,
    c4: Console,
    s3: Scheduler,
    s4: Scheduler,
    byte: u8,
)
    requires
        s1.wf(),
        s1.current is Some,
        awaited(c1, c2, s1, s2, h1, h2, Err(h)),
        c3.chan == c1.chan,
        typed_in(c3, c4, s3, s4, byte),
        proc::at(s3.procs@, h.slot as int) is Some,
        proc::at(s3.procs@, h.slot as int)->0.state == proc::at(s2.procs@, h.slot as int)->0.state,
    ensures
        s1.current == Some(h.slot),
        c1.pending().len() == 0,
        proc::at(s4.procs@, h.slot as int) matches Some(p) && p.state is Runnable,
        c4.pending().len() > 0,
{
    assert(proc::at(s1.procs@, s1.current->0 as int) is Some);
}

/// A reader that finds something gets what was typed first.
pub proof fn lemma_reader_gets(
    c1: Console,
    c2: Console,
    s1: Scheduler,
    s2: Scheduler,
    h1: Hart,
    h2: Hart,
    got: Result<u8, Handoff>,
)
    requires
        awaited(c1, c2, s1, s2, h1, h2, got),
    ensures
        got is Ok <==> c1.pending().len() > 0,
        got is Ok ==> c1.pending() == seq![got->Ok_0] + c2.pending() && s2 == s1,
        got is Err ==> c2.pending() == c1.pending(),
{
    if c1.pending().len() > 0 {
        assert(c1.pending() =~= seq![c1.pending()[0]] + c1.pending().drop_first());
    }
}

/// What is sent to the terminal: every newline behind a carriage return, and nothing
/// else is added or left out.
pub proof fn lemma_cooked(bytes: Seq<u8>)
    ensures
        cooked(bytes).filter(|b: u8| b != 0x0d) == bytes.filter(|b: u8| b != 0x0d),
        forall|i: int|
            0 <= i < cooked(bytes).len() && (#[trigger] cooked(bytes)[i]) == 0x0a ==> i > 0 && cooked(
                bytes,
            )[i - 1] == 0x0d,
        (forall|i: int| 0 <= i < bytes.len() ==> (#[trigger] bytes[i]) != 0x0a) ==> cooked(bytes)
            == bytes,
    decreases bytes.len(),
{
    reveal(Seq::filter);
    if bytes.len() > 0 {
        let init = bytes.drop_last();
        lemma_cooked(init);
        let rest = cooked(init);
        let keep = |b: u8| b != 0x0d;
        if bytes.last() == 10 {
            let with_cr = rest.push(13);
            assert(with_cr.drop_last() =~= rest);
            assert(with_cr.push(10).drop_last() =~= with_cr);
            assert(with_cr.filter(keep) == rest.filter(keep));
        } else {
            assert(rest.push(bytes.last()).drop_last() =~= rest);
        }
        if forall|i: int| 0 <= i < bytes.len() ==> (#[trigger] bytes[i]) != 0x0a {
            assert forall|i: int| 0 <= i < init.len() implies (#[trigger] init[i]) != 0x0a by {
                assert(bytes[i] != 0x0a);
            }
            assert(bytes[bytes.len() - 1] != 0x0a);
            assert(rest.push(bytes.last()) =~= bytes);
        }
    } else {
        assert(cooked(bytes) =~= bytes);
    }
}

} // verus!
