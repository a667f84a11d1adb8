//! NS16550A serial port (QEMU virt maps one at 0x1000_0000).
//!
//! The functions here say which byte-wide registers to access and how; the
//! caller performs the volatile accesses.
use vstd::prelude::*;

use crate::memlayout::UART0;

verus! {

// Register offsets (some share an offset and differ by read vs write).
/// Receive buffer (read).
pub const RBR: u64 = 0;

/// Transmit holding (write).
pub const THR: u64 = 0;

/// Interrupt enable.
pub const IER: u64 = 1;

/// FIFO control (write).
pub const FCR: u64 = 2;

/// Line control.
pub const LCR: u64 = 3;

/// Line status.
pub const LSR: u64 = 5;

pub const IER_RX_ENABLE: u8 = 0x01;

pub const FCR_FIFO_ENABLE: u8 = 0x01;

pub const FCR_FIFO_CLEAR: u8 = 0x06;

pub const LCR_EIGHT_BITS: u8 = 0x03;

pub const LCR_DLAB: u8 = 0x80;

pub const LSR_RX_READY: u8 = 0x01;

pub const LSR_TX_IDLE: u8 = 0x20;

/// A byte to write to a register.
#[derive(Clone, Copy, PartialEq, Eq, Debug, Structural)]
pub struct RegWrite {
    pub addr: u64,
    pub value: u8,
}

/// The write of `value` to the register at `offset`.
pub open spec fn write_of(offset: u64, value: u8) -> RegWrite {
    RegWrite { addr: (UART0 + offset) as u64, value }
}

fn reg_write(offset: u64, value: u8) -> (w: RegWrite)
    requires
        offset < 8,
    ensures
        w == write_of(offset, value),
{
    RegWrite { addr: UART0 + offset, value }
}

/// The address of the register at `offset`, to read it.
pub fn reg_addr(offset: u64) -> (addr: u64)
    requires
        offset < 8,
    ensures
        addr == UART0 + offset,
{
    UART0 + offset
}

/// The register writes that configure the port, in order.
pub fn init() -> (writes: Vec<RegWrite>)
    ensures
        writes@ == seq![
            // No interrupts while configuring.
            write_of(IER, 0x00),
            // Set the baud divisor (latched behind DLAB).
            write_of(LCR, LCR_DLAB),
            write_of(0, 0x03),
            write_of(1, 0x00),
            // 8 data bits, no parity, 1 stop bit; leave DLAB.
            write_of(LCR, LCR_EIGHT_BITS),
            // Enable and reset the FIFOs.
            write_of(FCR, 0x07),
        ],
{
    let fifo: u8 = FCR_FIFO_ENABLE | FCR_FIFO_CLEAR;
    assert(0x01u8 | 0x06 == 0x07) by (bit_vector);
    let mut writes: Vec<RegWrite> = Vec::new();
    writes.push(reg_write(IER, 0x00));
    writes.push(reg_write(LCR, LCR_DLAB));
    writes.push(reg_write(0, 0x03));
    writes.push(reg_write(1, 0x00));
    writes.push(reg_write(LCR, LCR_EIGHT_BITS));
    writes.push(reg_write(FCR, fifo));
    writes
}

/// The register write that enables the receive-data interrupt.
pub fn enable_rx_interrupt() -> (w: RegWrite)
    ensures
        w == write_of(IER, IER_RX_ENABLE),
{
    reg_write(IER, IER_RX_ENABLE)
}

/// How to send `byte` when the line status reads `lsr`.
pub open spec fn sending(lsr: u8, byte: u8) -> Option<RegWrite> {
    if lsr & LSR_TX_IDLE == 0 {
        None
    } else {
        Some(write_of(THR, byte))
    }
}

/// Where to read a byte from when the line status reads `lsr`.
pub open spec fn receiving(lsr: u8) -> Option<u64> {
    if lsr & LSR_RX_READY != 0 {
        Some((UART0 + RBR) as u64)
    } else {
        None
    }
}

/// A byte goes out exactly when the transmitter is idle (bit 5 of the line status), as it is;
/// one is read exactly when one is there (bit 0).
pub proof fn lemma_line_status(lsr: u8, byte: u8)
    ensures
        sending(lsr, byte) is Some <==> lsr & 0x20 != 0,
        sending(lsr, byte) matches Some(w) ==> w.addr == 0x1000_0000 && w.value == byte,
        receiving(lsr) is Some <==> lsr & 1 != 0,
        receiving(lsr) matches Some(addr) ==> addr == 0x1000_0000,
{
}

/// Transmit one byte: the register write, once the line status `lsr` says that
/// the FIFO has room; None while it has not, and the status must be read
/// again.
pub fn put(lsr: u8, byte: u8) -> (w: Option<RegWrite>)
    ensures
        w == sending(lsr, byte),
{
    if lsr & LSR_TX_IDLE == 0 {
        None
    } else {
        Some(reg_write(THR, byte))
    }
}

/// Non-blocking receive: the register to read the byte from, or None when the
/// line status `lsr` says that the FIFO is empty.
pub fn get(lsr: u8) -> (addr: Option<u64>)
    ensures
        addr == receiving(lsr),
{
    if lsr & LSR_RX_READY != 0 {
        Some(reg_addr(RBR))
    } else {
        None
    }
}

} // verus!
