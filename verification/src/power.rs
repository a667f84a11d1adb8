//! Power control via the SBI system-reset extension: shutdown and reboot are
//! firmware services.
//!
//! A request is a short conversation with the firmware. Each function takes
//! what the firmware answered and says what to do next.
use vstd::prelude::*;

use crate::sbi;
use crate::sbi::{
    SbiCall, SbiRet, RESET_REASON_NONE, RESET_TYPE_COLD_REBOOT, RESET_TYPE_SHUTDOWN,
};

verus! {

/// A request to stop the machine.
#[derive(Clone, Copy, PartialEq, Eq, Debug, Structural)]
pub struct Reset {
    /// What the firmware should do.
    pub reset_type: u64,
    /// Is the machine to come back?
    pub again: bool,
}

/// What to do next.
#[derive(Clone, Copy, PartialEq, Eq, Debug, Structural)]
pub enum PowerStep {
    /// Make this call.
    Call(SbiCall),
    /// Report that the firmware refused with this error, then park the hart.
    Refused(i64),
    /// Report that the firmware lacks the extension, then park the hart.
    Missing,
}

/// Power the machine off.
pub fn poweroff() -> (r: Reset)
    ensures
        r == (Reset { reset_type: RESET_TYPE_SHUTDOWN, again: false }),
{
    Reset { reset_type: RESET_TYPE_SHUTDOWN, again: false }
}

/// Reset the machine.
pub fn reboot() -> (r: Reset)
    ensures
        r == (Reset { reset_type: RESET_TYPE_COLD_REBOOT, again: true }),
{
    Reset { reset_type: RESET_TYPE_COLD_REBOOT, again: true }
}

/// What is said before the request is made.
pub fn verb(r: &Reset) -> (text: &'static str)
    ensures
        text@ == if r.again {
            "rebooting"@
        } else {
            "goodbye"@
        },
{
    if r.again {
        "rebooting"
    } else {
        "goodbye"
    }
}

/// First ask whether the firmware can reset the system at all.
pub fn probe(r: &Reset) -> (step: PowerStep)
    ensures
        step == PowerStep::Call(sbi::base_call(3, sbi::EID_SRST)),
{
    PowerStep::Call(sbi::probe_srst())
}

/// What follows the firmware's answer.
pub open spec fn after_probe(r: Reset, ret: SbiRet) -> PowerStep {
    if ret.error == 0 && ret.value != 0 {
        PowerStep::Call(
            SbiCall {
                eid: sbi::EID_SRST,
                fid: 0,
                arg0: r.reset_type,
                arg1: RESET_REASON_NONE,
            },
        )
    } else {
        PowerStep::Missing
    }
}

/// The machine is asked to stop in the way that was requested, by the firmware's system-reset
/// extension, exactly if the firmware said that it has it.
pub proof fn lemma_after_probe(r: Reset, ret: SbiRet)
    ensures
        after_probe(r, ret) is Call <==> ret.error == 0 && ret.value != 0,
        after_probe(r, ret) matches PowerStep::Call(call) ==> call.eid == 0x5352_5354 && call.fid
            == 0 && call.arg0 == r.reset_type && call.arg1 == 0,
        !(after_probe(r, ret) is Call) ==> after_probe(r, ret) is Missing,
{
}

/// Then, if it can, ask it to.
pub fn probed(r: &Reset, ret: SbiRet) -> (step: PowerStep)
    ensures
        step == after_probe(*r, ret),
{
    if sbi::probe_extension(ret) {
        PowerStep::Call(sbi::system_reset(r.reset_type, RESET_REASON_NONE))
    } else {
        PowerStep::Missing
    }
}

/// The reset call returned, so the firmware refused the request.
pub fn refused(ret: SbiRet) -> (step: PowerStep)
    ensures
        step == PowerStep::Refused(ret.error),
{
    PowerStep::Refused(ret.error)
}

} // verus!
