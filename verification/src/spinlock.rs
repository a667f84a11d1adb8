//! A spinlock that is safe to share with interrupt handlers.
//!
//! Taking the lock disables supervisor interrupts on this hart first
//! ([`push_off`]), which is what makes it sound: if an interrupt handler could
//! run while the lock is held and try to take the same lock, the hart would
//! deadlock against itself. `push_off`/`pop_off` nest, and the outermost
//! `pop_off` restores whatever interrupt state the outermost `push_off` saw.
use vstd::prelude::*;

use crate::riscv;
use crate::riscv::Hart;

verus! {

/// Inside a disabled region interrupts are off.
pub open spec fn hart_ok(hart: Hart) -> bool {
    hart.noff > 0 ==> !riscv::sie_on(hart.sstatus)
}

/// The hart is inside a disabled region, so no interrupt can come in between.
pub open spec fn masked(hart: Hart) -> bool {
    hart.noff > 0 && !riscv::sie_on(hart.sstatus)
}

/// The hart after one more level of interrupt-disable.
pub open spec fn pushed(hart: Hart) -> Hart {
    Hart {
        sstatus: riscv::without_sie(hart.sstatus),
        noff: (hart.noff + 1) as u64,
        intena: if hart.noff == 0 {
            riscv::sie_on(hart.sstatus)
        } else {
            hart.intena
        },
        ..hart
    }
}

/// The hart after one level of interrupt-disable is left.
pub open spec fn popped(hart: Hart) -> Hart {
    Hart {
        sstatus: if hart.noff == 1 && hart.intena {
            riscv::with_sie(hart.sstatus)
        } else {
            hart.sstatus
        },
        noff: (hart.noff - 1) as u64,
        ..hart
    }
}

/// Disable interrupts, remembering at the outermost level whether they were
/// enabled.
pub fn push_off(hart: &mut Hart)
    requires
        old(hart).noff < u64::MAX,
    ensures
        *final(hart) == pushed(*old(hart)),
        hart_ok(*final(hart)),
        final(hart).noff == old(hart).noff + 1,
{
    let was_on: bool = riscv::intr_get(hart);
    proof {
        riscv::lemma_sie(hart.sstatus);
    }
    riscv::intr_off(hart);
    if hart.noff == 0 {
        hart.intena = was_on;
    }
    hart.noff = hart.noff + 1;
}

/// Leave one level of interrupt-disable; the outermost one restores the
/// interrupt state that the matching [`push_off`] saw.
pub fn pop_off(hart: &mut Hart)
    requires
        old(hart).noff > 0,
        hart_ok(*old(hart)),
    ensures
        *final(hart) == popped(*old(hart)),
        hart_ok(*final(hart)),
        final(hart).noff == old(hart).noff - 1,
{
    hart.noff = hart.noff - 1;
    if hart.noff == 0 && hart.intena {
        riscv::intr_on(hart);
    }
}

/// Is exactly one level of interrupt-disable held?
pub fn holding_one(hart: &Hart) -> (one: bool)
    ensures
        one == (hart.noff == 1),
{
    hart.noff == 1
}

/// The interrupt state the outermost `pop_off` will restore.
pub fn saved_intena(hart: &Hart) -> (intena: bool)
    ensures
        intena == hart.intena,
{
    hart.intena
}

/// Set the interrupt state the outermost `pop_off` will restore.
pub fn set_intena(hart: &mut Hart, intena: bool)
    ensures
        *final(hart) == (Hart { intena, ..*old(hart) }),
{
    hart.intena = intena;
}

/// A matched pair leaves the interrupt-enable bit and the nesting depth as
/// they were, at any depth.
pub proof fn lemma_push_pop(hart: Hart)
    requires
        hart.noff < u64::MAX,
        hart_ok(hart),
    ensures
        popped(pushed(hart)).sstatus == hart.sstatus,
        popped(pushed(hart)).noff == hart.noff,
        hart.noff > 0 ==> popped(pushed(hart)) == hart,
{
    riscv::lemma_sie(hart.sstatus);
}

/// `n` nested `push_off` calls.
pub open spec fn pushed_n(hart: Hart, n: nat) -> Hart
    decreases n,
{
    if n == 0 {
        hart
    } else {
        pushed(pushed_n(hart, (n - 1) as nat))
    }
}

/// `n` nested `pop_off` calls.
pub open spec fn popped_n(hart: Hart, n: nat) -> Hart
    decreases n,
{
    if n == 0 {
        hart
    } else {
        popped_n(popped(hart), (n - 1) as nat)
    }
}

/// However deep the nesting, as many `pop_off` calls as there were `push_off`
/// calls restore the interrupt state the first of them saw, and in between
/// interrupts stay off.
pub proof fn lemma_nesting(hart: Hart, n: nat)
    requires
        hart.noff + n <= u64::MAX,
        hart_ok(hart),
    ensures
        n > 0 ==> !riscv::sie_on(pushed_n(hart, n).sstatus),
        pushed_n(hart, n).noff == hart.noff + n,
        hart_ok(pushed_n(hart, n)),
        popped_n(pushed_n(hart, n), n).sstatus == hart.sstatus,
        popped_n(pushed_n(hart, n), n).noff == hart.noff,
    decreases n,
{
    if n > 0 {
        let k = (n - 1) as nat;
        lemma_nesting(hart, k);
        let inner = pushed_n(hart, k);
        riscv::lemma_sie(inner.sstatus);
        lemma_push_pop(inner);
        if k > 0 {
            assert(popped(pushed(inner)) == inner);
        } else {
            reveal_with_fuel(popped_n, 2);
        }
    }
}

/// A lock around a value. Only its guard gives access to the value.
pub struct SpinLock<T> {
    locked: bool,
    name: &'static str,
    value: Option<T>,
}

/// The right to use the value of a locked [`SpinLock`].
pub struct SpinLockGuard<T> {
    value: T,
}

impl<T> SpinLock<T> {
    /// Is the lock taken?
    pub closed spec fn locked(self) -> bool {
        self.locked
    }

    /// The name given at construction.
    pub closed spec fn label(self) -> &'static str {
        self.name
    }

    /// The value, meaningful while the lock is free.
    pub closed spec fn held(self) -> T {
        self.value->0
    }

    /// The value is inside exactly while the lock is free.
    pub closed spec fn wf(self) -> bool {
        self.locked == self.value is None
    }

    /// A free lock around `value`.
    pub fn new(name: &'static str, value: T) -> (lock: SpinLock<T>)
        ensures
            lock.wf(),
            !lock.locked(),
            lock.label() == name,
            lock.held() == value,
    {
        SpinLock { locked: false, name, value: Some(value) }
    }

    /// Disable interrupts and take the lock. On one hart a lock that is
    /// already taken would never be released, so it must be free.
    pub fn lock(&mut self, hart: &mut Hart) -> (guard: SpinLockGuard<T>)
        requires
            old(self).wf(),
            !old(self).locked(),
            old(hart).noff < u64::MAX,
        ensures
            final(self).wf(),
            final(self).locked(),
            final(self).label() == old(self).label(),
            guard.value() == old(self).held(),
            *final(hart) == pushed(*old(hart)),
            hart_ok(*final(hart)),
            final(hart).noff == old(hart).noff + 1,
    {
        push_off(hart);
        self.locked = true;
        let value: T = self.value.take().unwrap();
        SpinLockGuard { value }
    }

    /// Give the value back, release the lock and leave the interrupt-disabled
    /// region its guard held.
    pub fn release(&mut self, guard: SpinLockGuard<T>, hart: &mut Hart)
        requires
            old(self).wf(),
            old(self).locked(),
            old(hart).noff > 0,
            hart_ok(*old(hart)),
        ensures
            final(self).wf(),
            !final(self).locked(),
            final(self).label() == old(self).label(),
            final(self).held() == guard.value(),
            *final(hart) == popped(*old(hart)),
            hart_ok(*final(hart)),
            final(hart).noff == old(hart).noff - 1,
    {
        self.value = Some(guard.value);
        self.locked = false;
        pop_off(hart);
    }

    /// Name given at construction; used in diagnostics.
    pub fn name(&self) -> (name: &'static str)
        ensures
            name == self.label(),
    {
        self.name
    }
}

impl<T> SpinLockGuard<T> {
    /// The guarded value.
    pub closed spec fn value(self) -> T {
        self.value
    }

    /// Read access to the guarded value.
    pub fn deref(&self) -> (value: &T)
        ensures
            *value == self.value(),
    {
        &self.value
    }

    /// Write access to the guarded value.
    pub fn deref_mut(&mut self) -> (value: &mut T)
        ensures
            *value == old(self).value(),
            final(self).value() == *final(value),
    {
        &mut self.value
    }
}

} // verus!
