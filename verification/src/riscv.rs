//! The privileged state of the hart, and the supervisor CSR bits.
use vstd::prelude::*;

verus! {

// sstatus bits.
/// Supervisor interrupt enable.
pub const SSTATUS_SIE: u64 = 0x2;

/// The value of SIE that `sret` restores.
pub const SSTATUS_SPIE: u64 = 0x20;

/// The privilege `sret` returns to (0 = U).
pub const SSTATUS_SPP: u64 = 0x100;

/// Permit S-mode access to U pages.
pub const SSTATUS_SUM: u64 = 0x4_0000;

// sie bits.
/// Software interrupts.
pub const SIE_SSIE: u64 = 0x2;

/// Timer interrupts.
pub const SIE_STIE: u64 = 0x20;

/// External interrupts.
pub const SIE_SEIE: u64 = 0x200;

/// scause: top bit = interrupt, low bits = code.
pub const SCAUSE_INTERRUPT: u64 = 0x8000_0000_0000_0000;

/// The privileged registers of the one hart the kernel schedules on, with its
/// interrupt-disable nesting.
#[derive(Clone, Copy)]
pub struct Hart {
    /// The `sstatus` CSR.
    pub sstatus: u64,
    /// The `sie` CSR.
    pub sie: u64,
    /// The `sepc` CSR.
    pub sepc: u64,
    /// The `stvec` CSR.
    pub stvec: u64,
    /// The `sscratch` CSR: 0 in S-mode, the kernel trap stack in U-mode.
    pub sscratch: u64,
    /// The `satp` CSR.
    pub satp: u64,
    /// Interrupt-disable nesting depth.
    pub noff: u64,
    /// Were interrupts enabled before the outermost disable?
    pub intena: bool,
}

/// Are supervisor interrupts enabled in `sstatus`?
pub open spec fn sie_on(sstatus: u64) -> bool {
    sstatus & SSTATUS_SIE != 0
}

/// `sstatus` with supervisor interrupts enabled.
pub open spec fn with_sie(sstatus: u64) -> u64 {
    sstatus | SSTATUS_SIE
}

/// `sstatus` with supervisor interrupts disabled.
pub open spec fn without_sie(sstatus: u64) -> u64 {
    sstatus & !SSTATUS_SIE
}

/// Setting and clearing the interrupt bit does what it says and undoes each
/// other.
pub proof fn lemma_sie(s: u64)
    ensures
        sie_on(with_sie(s)),
        !sie_on(without_sie(s)),
        sie_on(s) ==> with_sie(s) == s && with_sie(without_sie(s)) == s,
        !sie_on(s) ==> without_sie(s) == s,
{
    assert((s | 2) & 2 != 0) by (bit_vector);
    assert((s & !2) & 2 == 0) by (bit_vector);
    assert(s & 2 != 0 ==> (s | 2) == s && ((s & !2) | 2) == s) by (bit_vector);
    assert(s & 2 == 0 ==> (s & !2) == s) by (bit_vector);
}

impl Hart {
    /// A hart fresh from the firmware: interrupts off, nothing set up.
    pub fn new() -> (hart: Hart)
        ensures
            hart == (Hart {
                sstatus: 0,
                sie: 0,
                sepc: 0,
                stvec: 0,
                sscratch: 0,
                satp: 0,
                noff: 0,
                intena: false,
            }),
    {
        Hart {
            sstatus: 0,
            sie: 0,
            sepc: 0,
            stvec: 0,
            sscratch: 0,
            satp: 0,
            noff: 0,
            intena: false,
        }
    }
}

/// Enable supervisor interrupts on this hart.
pub fn intr_on(hart: &mut Hart)
    ensures
        *final(hart) == (Hart { sstatus: with_sie(old(hart).sstatus), ..*old(hart) }),
{
    hart.sstatus = hart.sstatus | SSTATUS_SIE;
}

/// Disable supervisor interrupts on this hart.
pub fn intr_off(hart: &mut Hart)
    ensures
        *final(hart) == (Hart { sstatus: without_sie(old(hart).sstatus), ..*old(hart) }),
{
    hart.sstatus = hart.sstatus & !SSTATUS_SIE;
}

/// Are supervisor interrupts enabled on this hart?
pub fn intr_get(hart: &Hart) -> (on: bool)
    ensures
        on == sie_on(hart.sstatus),
{
    hart.sstatus & SSTATUS_SIE != 0
}

/// May S-mode touch U-marked pages?
pub open spec fn sum_set(sstatus: u64) -> bool {
    sstatus & SSTATUS_SUM != 0
}

/// The hart with `sstatus.SUM` set.
pub open spec fn under_sum(hart: Hart) -> Hart {
    Hart { sstatus: hart.sstatus | SSTATUS_SUM, ..hart }
}

/// Set `sstatus.SUM`, letting S-mode touch U-marked pages; was it set before?
pub fn sum_on(hart: &mut Hart) -> (had_sum: bool)
    ensures
        had_sum == sum_set(old(hart).sstatus),
        *final(hart) == under_sum(*old(hart)),
{
    let had_sum: bool = hart.sstatus & SSTATUS_SUM != 0;
    hart.sstatus = hart.sstatus | SSTATUS_SUM;
    had_sum
}

/// Clear `sstatus.SUM`, unless it was set before.
pub fn sum_restore(hart: &mut Hart, had_sum: bool)
    ensures
        *final(hart) == (Hart {
            sstatus: if had_sum {
                old(hart).sstatus
            } else {
                old(hart).sstatus & !SSTATUS_SUM
            },
            ..*old(hart)
        }),
{
    if !had_sum {
        hart.sstatus = hart.sstatus & !SSTATUS_SUM;
    }
}

/// Setting SUM sets it, and restoring it afterwards changes nothing.
pub proof fn lemma_sum(s: u64)
    ensures
        sum_set(s | SSTATUS_SUM),
        s & SSTATUS_SUM == 0 ==> (s | SSTATUS_SUM) & !SSTATUS_SUM == s,
        s & SSTATUS_SUM != 0 ==> (s | SSTATUS_SUM) == s,
{
    assert((s | 0x4_0000) & 0x4_0000 != 0) by (bit_vector);
    assert(s & 0x4_0000 == 0 ==> (s | 0x4_0000) & !0x4_0000 == s) by (bit_vector);
    assert(s & 0x4_0000 != 0 ==> (s | 0x4_0000) == s) by (bit_vector);
}

/// Run `f` on the hart with `sstatus.SUM` set, letting S-mode touch U-marked
/// pages. Restores the previous SUM state (calls may nest).
pub fn with_sum<T, F: FnOnce(&Hart) -> T>(hart: &mut Hart, f: F) -> (out: T)
    requires
        f.requires((&under_sum(*old(hart)),)),
    ensures
        f.ensures((&under_sum(*old(hart)),), out),
        *final(hart) == *old(hart),
{
    proof {
        lemma_sum(hart.sstatus);
    }
    let had_sum: bool = sum_on(hart);
    let out: T = f(hart);
    sum_restore(hart, had_sum);
    out
}

/// The bits of the status word stand where the processor has them: interrupts are enabled by
/// bit 1, and the kernel may touch user pages under bit 18.
pub proof fn lemma_status_bits(s: u64)
    ensures
        sie_on(s) <==> s & 2 != 0,
        sum_set(s) <==> s & 0x4_0000 != 0,
        with_sie(s) == s | 2,
        without_sie(s) == s & !2u64,
{
}

} // verus!
