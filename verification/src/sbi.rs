//! SBI client: the kernel's interface to machine-mode firmware.
//!
//! Anything only machine mode can do (arming the timer, resetting the machine)
//! is requested through the Supervisor Binary Interface: an `ecall` with an
//! extension ID in a7 and a function ID in a6. Arguments travel in a0/a1; the
//! result comes back as an error code in a0 and a value in a1. The functions
//! here build the requests and read the results; the caller makes the `ecall`.
//!
//! Only the extensions the kernel needs are covered: Base (discovery), TIME
//! (timer) and SRST (system reset).
use vstd::prelude::*;

verus! {

/// Result of every SBI call: a standard error code and a call-specific value.
#[derive(Clone, Copy, PartialEq, Eq, Debug, Structural)]
pub struct SbiRet {
    pub error: i64,
    pub value: u64,
}

impl SbiRet {
    /// Did the call succeed?
    pub fn is_ok(&self) -> (ok: bool)
        ensures
            ok == (self.error == 0),
    {
        self.error == 0
    }
}

/// The arguments of an SBI call.
#[derive(Clone, Copy, PartialEq, Eq, Debug, Structural)]
pub struct SbiCall {
    pub eid: u64,
    pub fid: u64,
    pub arg0: u64,
    pub arg1: u64,
}

/// Name of a standard SBI error code.
pub open spec fn error_text(error: int) -> &'static str {
    if error == 0 {
        "success"
    } else if error == -1 {
        "failed"
    } else if error == -2 {
        "not supported"
    } else if error == -3 {
        "invalid parameter"
    } else if error == -4 {
        "denied"
    } else if error == -5 {
        "invalid address"
    } else if error == -6 {
        "already available"
    } else if error == -7 {
        "already started"
    } else if error == -8 {
        "already stopped"
    } else if error == -9 {
        "no shared memory"
    } else {
        "unknown error"
    }
}

/// Human-readable form of the standard SBI error codes.
pub fn error_name(error: i64) -> (name: &'static str)
    ensures
        name@ == error_text(error as int)@,
{
    match error {
        0 => "success",
        -1 => "failed",
        -2 => "not supported",
        -3 => "invalid parameter",
        -4 => "denied",
        -5 => "invalid address",
        -6 => "already available",
        -7 => "already started",
        -8 => "already stopped",
        -9 => "no shared memory",
        _ => "unknown error",
    }
}

// Extension IDs. TIME and SRST spell themselves in ASCII.
pub const EID_BASE: u64 = 0x10;

pub const EID_TIME: u64 = 0x5449_4D45;

pub const EID_SRST: u64 = 0x5352_5354;

pub const RESET_TYPE_SHUTDOWN: u64 = 0;

pub const RESET_TYPE_COLD_REBOOT: u64 = 1;

pub const RESET_TYPE_WARM_REBOOT: u64 = 2;

pub const RESET_REASON_NONE: u64 = 0;

// ---- Base extension: mandatory discovery interface ------------------------

/// The call of function `fid` of the Base extension.
pub open spec fn base_call(fid: u64, arg0: u64) -> SbiCall {
    SbiCall { eid: EID_BASE, fid, arg0, arg1: 0 }
}

/// Ask for the SBI specification version.
pub fn spec_version_call() -> (call: SbiCall)
    ensures
        call == base_call(0, 0),
{
    SbiCall { eid: EID_BASE, fid: 0, arg0: 0, arg1: 0 }
}

/// SBI specification version implemented by the firmware, as (major, minor).
pub fn spec_version(ret: SbiRet) -> (version: (u64, u64))
    ensures
        version.0 == ret.value / 0x100_0000 % 0x80,
        version.1 == ret.value % 0x100_0000,
{
    let v: u64 = ret.value;
    assert((v >> 24u64) & 0x7f == v / 0x100_0000 % 0x80) by (bit_vector);
    assert(v & 0xff_ffff == v % 0x100_0000) by (bit_vector);
    ((v >> 24u64) & 0x7f, v & 0xff_ffff)
}

/// Ask which firmware implementation answers.
pub fn impl_id_call() -> (call: SbiCall)
    ensures
        call == base_call(1, 0),
{
    SbiCall { eid: EID_BASE, fid: 1, arg0: 0, arg1: 0 }
}

/// Which firmware implementation answered (1 = OpenSBI, ...).
pub fn impl_id(ret: SbiRet) -> (id: u64)
    ensures
        id == ret.value,
{
    ret.value
}

/// Ask for the implementation's version.
pub fn impl_version_call() -> (call: SbiCall)
    ensures
        call == base_call(2, 0),
{
    SbiCall { eid: EID_BASE, fid: 2, arg0: 0, arg1: 0 }
}

/// Implementation-defined firmware version.
pub fn impl_version(ret: SbiRet) -> (version: u64)
    ensures
        version == ret.value,
{
    ret.value
}

/// Name of a registered implementation.
pub open spec fn impl_text(id: int) -> &'static str {
    if id == 0 {
        "BBL"
    } else if id == 1 {
        "OpenSBI"
    } else if id == 2 {
        "Xvisor"
    } else if id == 3 {
        "KVM"
    } else if id == 4 {
        "RustSBI"
    } else if id == 5 {
        "Diosix"
    } else if id == 6 {
        "Coffer"
    } else if id == 7 {
        "Xen"
    } else {
        "unknown SBI implementation"
    }
}

/// Name for a registered implementation ID.
pub fn impl_name(id: u64) -> (name: &'static str)
    ensures
        name@ == impl_text(id as int)@,
{
    match id {
        0 => "BBL",
        1 => "OpenSBI",
        2 => "Xvisor",
        3 => "KVM",
        4 => "RustSBI",
        5 => "Diosix",
        6 => "Coffer",
        7 => "Xen",
        _ => "unknown SBI implementation",
    }
}

/// Ask whether the firmware implements extension `eid`.
pub fn probe_extension_call(eid: u64) -> (call: SbiCall)
    ensures
        call == base_call(3, eid),
{
    SbiCall { eid: EID_BASE, fid: 3, arg0: eid, arg1: 0 }
}

/// Does the firmware implement the extension that was probed? (The call
/// returns nonzero for implemented extensions.)
pub fn probe_extension(ret: SbiRet) -> (present: bool)
    ensures
        present == (ret.error == 0 && ret.value != 0),
{
    ret.is_ok() && ret.value != 0
}

/// Ask whether the firmware implements the timer extension.
pub fn probe_time() -> (call: SbiCall)
    ensures
        call == base_call(3, EID_TIME),
{
    probe_extension_call(EID_TIME)
}

/// Ask whether the firmware implements the system-reset extension.
pub fn probe_srst() -> (call: SbiCall)
    ensures
        call == base_call(3, EID_SRST),
{
    probe_extension_call(EID_SRST)
}

// ---- TIME extension: the supervisor timer ---------------------------------

/// Arm the next timer interrupt for absolute time `when` (timebase ticks). The
/// firmware clears the pending supervisor timer interrupt as part of arming, so
/// making this call from the timer trap acknowledges the interrupt.
pub fn set_timer(when: u64) -> (call: SbiCall)
    ensures
        call == (SbiCall { eid: EID_TIME, fid: 0, arg0: when, arg1: 0 }),
{
    SbiCall { eid: EID_TIME, fid: 0, arg0: when, arg1: 0 }
}

// ---- SRST extension: system reset -----------------------------------------

/// Ask the firmware to reset the system. On success the call never returns; a
/// result means the request was refused (the caller decides what next).
pub fn system_reset(reset_type: u64, reason: u64) -> (call: SbiCall)
    ensures
        call == (SbiCall { eid: EID_SRST, fid: 0, arg0: reset_type, arg1: reason }),
{
    SbiCall { eid: EID_SRST, fid: 0, arg0: reset_type, arg1: reason }
}

} // verus!
