//! How talkative the program is, from the counts of its two flags.

use vstd::prelude::*;

verus! {

/// The most detailed level of message that is still shown.
#[derive(Clone, Copy, Debug, PartialEq, Eq, Structural)]
pub enum LevelFilter {
    Error,
    Warn,
    Info,
    Debug,
    Trace,
}

/// The level for a net verbosity, the count of "more" flags less the count
/// of "less" flags: `Info` at zero, one step per flag, saturating at `Error`
/// below and at `Trace` above.
pub open spec fn level_for(net: int) -> LevelFilter {
    if net <= -2 {
        LevelFilter::Error
    } else if net == -1 {
        LevelFilter::Warn
    } else if net == 0 {
        LevelFilter::Info
    } else if net == 1 {
        LevelFilter::Debug
    } else {
        LevelFilter::Trace
    }
}

/// The level filter selected by `verbose` "more" flags and `quiet` "less"
/// flags.
pub fn log_level(verbose: u8, quiet: u8) -> (level: LevelFilter)
    ensures
        level == level_for(verbose as int - quiet as int),
{
    if verbose < quiet {
        if quiet - verbose >= 2 {
            LevelFilter::Error
        } else {
            LevelFilter::Warn
        }
    } else if verbose == quiet {
        LevelFilter::Info
    } else if verbose - quiet == 1 {
        LevelFilter::Debug
    } else {
        LevelFilter::Trace
    }
}

} // verus!
