//! What can go wrong around a scan, and what follows from it. No failure is
//! tried again: each is reported once, when it happens.

use vstd::prelude::*;

verus! {

/// A failure of the world around the engine.
#[derive(Debug, Clone, Copy, PartialEq, Eq, Structural)]
pub enum Failure {
    /// The device could not be opened.
    DeviceOpen,
    /// The output directory could not be created.
    OutputDir,
    /// A read from the device failed.
    Read,
    /// A recovered file could not be stored.
    Write,
}

/// What a failure does to the scan.
#[derive(Debug, Clone, Copy, PartialEq, Eq, Structural)]
pub enum Reaction {
    /// The scan never starts.
    AbortBeforeScan,
    /// The scan stops; the files that were stored before stay.
    AbortScan,
    /// The scan goes on with the next file. The file that could not be
    /// stored keeps its number, so that the names of the others stay
    /// unique.
    Continue,
}

/// The reaction that each failure calls for.
pub open spec fn reaction_to(failure: Failure) -> Reaction {
    match failure {
        Failure::DeviceOpen => Reaction::AbortBeforeScan,
        Failure::OutputDir => Reaction::AbortBeforeScan,
        Failure::Read => Reaction::AbortScan,
        Failure::Write => Reaction::Continue,
    }
}

/// The reaction that `failure` calls for.
pub fn reaction(failure: Failure) -> (r: Reaction)
    ensures
        r == reaction_to(failure),
{
    match failure {
        Failure::DeviceOpen | Failure::OutputDir => Reaction::AbortBeforeScan,
        Failure::Read => Reaction::AbortScan,
        Failure::Write => Reaction::Continue,
    }
}

/// Whether `failure` ends the scan: every failure does but one to store a
/// file.
pub fn is_fatal(failure: Failure) -> (fatal: bool)
    ensures
        fatal == (reaction_to(failure) != Reaction::Continue),
        fatal == (failure != Failure::Write),
{
    match failure {
        Failure::Write => false,
        _ => true,
    }
}

} // verus!
