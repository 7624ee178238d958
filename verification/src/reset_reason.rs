//! Why the device was reset.

use vstd::prelude::*;

verus! {

/// The causes of a reset that the device has recorded since they were last
/// cleared. More than one can be set.
#[derive(Debug, Copy, Clone, Eq, PartialEq, Structural)]
pub struct ResetFlags {
    /// The reset pin was pulled.
    pub resetpin: bool,
    /// The watchdog ran out.
    pub dog: bool,
    /// The device woke up from its off mode.
    pub off: bool,
    /// The debug interface woke the device up from its off mode.
    pub dif: bool,
    /// Software asked for the reset.
    pub sreq: bool,
    /// The processor locked up.
    pub lockup: bool,
    /// The control access port asked for the reset.
    pub ctrlap: bool,
}

/// Reason why the device was reset.
#[derive(Debug, Copy, Clone, Eq, PartialEq, Structural)]
pub enum ResetReason {
    /// The reset pin was pulled.
    ResetPin,
    /// The watchdog ran out.
    Watchdog,
    /// The device woke up from its off mode.
    WakeupFromOff,
    /// The debug interface woke the device up from its off mode.
    DebugFromOff,
    /// Software asked for the reset.
    SysResetReq,
    /// The processor locked up.
    Lockup,
    /// The control access port asked for the reset.
    CtrlAp,
    /// No cause is recorded.
    NoReason,
}

impl ResetReason {
    /// The reason that a set of recorded causes stands for: the first that
    /// is set, in the order of the fields, or none.
    pub open spec fn of(flags: ResetFlags) -> ResetReason {
        if flags.resetpin {
            ResetReason::ResetPin
        } else if flags.dog {
            ResetReason::Watchdog
        } else if flags.off {
            ResetReason::WakeupFromOff
        } else if flags.dif {
            ResetReason::DebugFromOff
        } else if flags.sreq {
            ResetReason::SysResetReq
        } else if flags.lockup {
            ResetReason::Lockup
        } else if flags.ctrlap {
            ResetReason::CtrlAp
        } else {
            ResetReason::NoReason
        }
    }

    /// Looks up the reason of the reset in the causes that the device has
    /// recorded.
    pub fn lookup(flags: &ResetFlags) -> (reason: ResetReason)
        ensures
            reason == ResetReason::of(*flags),
    {
        if flags.resetpin {
            return ResetReason::ResetPin;
        }
        if flags.dog {
            return ResetReason::Watchdog;
        }
        if flags.off {
            return ResetReason::WakeupFromOff;
        }
        if flags.dif {
            return ResetReason::DebugFromOff;
        }
        if flags.sreq {
            return ResetReason::SysResetReq;
        }
        if flags.lockup {
            return ResetReason::Lockup;
        }
        if flags.ctrlap {
            return ResetReason::CtrlAp;
        }
        ResetReason::NoReason
    }
}

} // verus!
