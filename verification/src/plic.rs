//! PLIC (platform-level interrupt controller).
//!
//! The PLIC fans all external device IRQs into one supervisor external
//! interrupt per hart context. QEMU virt numbers hart 0's contexts 0 (M-mode)
//! and 1 (S-mode); only the S-mode context is programmed.
//!
//! Flow: device raises IRQ -> PLIC latches it -> hart takes the external trap
//! -> handler claims the IRQ number, services the device, then completes it so
//! the PLIC can deliver the next one. The functions here say which registers
//! to access and how; the caller performs the volatile accesses.
use vstd::prelude::*;

use crate::memlayout::{PLIC, UART0_IRQ};

verus! {

/// Hart 0, S-mode context number on QEMU virt.
pub const CONTEXT: u64 = 1;

/// Priority registers, one word per IRQ.
pub const PRIORITY_BASE: u64 = 0x0c00_0000;

/// Enable bits of the S-mode context.
pub const ENABLE_BASE: u64 = 0x0c00_2080;

/// Priority threshold of the S-mode context.
pub const THRESHOLD: u64 = 0x0c20_1000;

/// Claim/complete register of the S-mode context.
pub const CLAIM: u64 = 0x0c20_1004;

/// A word to write to a register.
#[derive(Clone, Copy, PartialEq, Eq, Debug, Structural)]
pub struct RegWrite {
    pub addr: u64,
    pub value: u32,
}

/// The registers stand where the controller has them.
pub proof fn lemma_registers()
    ensures
        PRIORITY_BASE == PLIC,
        ENABLE_BASE == PLIC + 0x2000 + 0x80 * CONTEXT,
        THRESHOLD == PLIC + 0x20_0000 + 0x1000 * CONTEXT,
        CLAIM == PLIC + 0x20_0004 + 0x1000 * CONTEXT,
{
}

/// Global setup: give each device IRQ in use a nonzero priority (priority 0
/// means "never deliver").
pub fn init() -> (w: RegWrite)
    ensures
        w == (RegWrite { addr: (PLIC + 4 * UART0_IRQ) as u64, value: 1 }),
{
    RegWrite { addr: PRIORITY_BASE + 4 * UART0_IRQ as u64, value: 1 }
}

/// The enable word that holds the serial port's bit.
pub fn enable_word() -> (addr: u64)
    ensures
        addr == ENABLE_BASE + 4 * (UART0_IRQ / 32),
{
    ENABLE_BASE + 4 * (UART0_IRQ as u64 / 32)
}

/// Per-hart setup: unmask our IRQs for this hart's S context, whose enable word
/// reads `enabled`, and accept any priority above 0.
pub fn init_hart(enabled: u32) -> (writes: [RegWrite; 2])
    ensures
        writes@[0] == (RegWrite {
            addr: (ENABLE_BASE + 4 * (UART0_IRQ / 32)) as u64,
            value: enabled | (1u32 << (UART0_IRQ % 32)),
        }),
        writes@[1] == (RegWrite { addr: THRESHOLD, value: 0 }),
{
    [
        RegWrite { addr: enable_word(), value: enabled | (1u32 << (UART0_IRQ % 32)) },
        RegWrite { addr: THRESHOLD, value: 0 },
    ]
}

/// Which IRQ fired, from what the claim register reads. None on a spurious
/// interrupt (another hart or context already claimed it).
pub fn claim(word: u32) -> (irq: Option<u32>)
    ensures
        irq == if word == 0 {
            None
        } else {
            Some(word)
        },
{
    if word == 0 {
        None
    } else {
        Some(word)
    }
}

/// The write that tells the PLIC we're done servicing `irq`.
pub fn complete(irq: u32) -> (w: RegWrite)
    ensures
        w == (RegWrite { addr: CLAIM, value: irq }),
{
    RegWrite { addr: CLAIM, value: irq }
}

} // verus!
