//! The pure decisions of the transfer engine, shared by the verified
//! model run and by the process layer that talks to the real filesystem:
//! how a destination path is resolved, how an OS error is classified,
//! and which rung of the strategy ladder follows it.

use vstd::prelude::*;
use crate::MoveOrCopy;

verus! {

/// Whether the resolved destination is the destination joined with the
/// source's file name rather than the destination verbatim: so when the
/// destination is an existing directory, or does not exist but was
/// written with a trailing separator.
pub open spec fn spec_appends_name(dest_is_dir: bool, dest_exists: bool, trailing_sep: bool) -> bool {
    dest_is_dir || (!dest_exists && trailing_sep)
}

/// Decide whether the destination path gets the source's name appended.
pub fn dest_appends_name(dest_is_dir: bool, dest_exists: bool, trailing_sep: bool) -> (r: bool)
    ensures
        r == spec_appends_name(dest_is_dir, dest_exists, trailing_sep),
{
    dest_is_dir || (!dest_exists && trailing_sep)
}

/// What an OS error from the preferred transfer primitive means for the
/// strategy ladder.
#[derive(Debug, Clone, Copy, PartialEq, Eq, Structural)]
pub enum OsErrorClass {
    /// Source and destination live on different filesystems: fall back.
    CrossDeviceFallback,
    /// The primitive is not supported here: fall back.
    UnsupportedPrimitive,
    /// Anything else: fatal, propagated unchanged.
    Fatal,
}

/// The classification of a raw OS error code, given the platform's
/// cross-device and not-supported codes.
pub open spec fn spec_classify(raw: i32, cross_device: i32, unsupported: i32) -> OsErrorClass {
    if raw == cross_device {
        OsErrorClass::CrossDeviceFallback
    } else if raw == unsupported {
        OsErrorClass::UnsupportedPrimitive
    } else {
        OsErrorClass::Fatal
    }
}

/// Classify a raw OS error code against the platform's cross-device and
/// not-supported codes.
pub fn classify_os_error(raw: i32, cross_device: i32, unsupported: i32) -> (r: OsErrorClass)
    ensures
        r == spec_classify(raw, cross_device, unsupported),
{
    if raw == cross_device {
        OsErrorClass::CrossDeviceFallback
    } else if raw == unsupported {
        OsErrorClass::UnsupportedPrimitive
    } else {
        OsErrorClass::Fatal
    }
}

/// Relies on libc::EXDEV: the platform's cross-device error code. Its
/// numeric value differs per target, so nothing more is promised of it.
#[verifier::external_body]
pub fn cross_device_code() -> i32 {
    libc::EXDEV
}

/// Relies on libc::ENOTSUP: the platform's operation-not-supported error
/// code. Its numeric value differs per target, so nothing more is
/// promised of it.
#[verifier::external_body]
pub fn unsupported_code() -> i32 {
    libc::ENOTSUP
}

/// One rung of the strategy ladder for a single file.
#[derive(Debug, Clone, Copy, PartialEq, Eq, Structural)]
pub enum Strategy {
    /// Same-filesystem atomic rename: the preferred primitive of a move.
    Rename,
    /// Copy-on-write clone: the preferred primitive of a copy.
    Reflink,
    /// Streaming a fixed-size buffer with progress: the general fallback.
    BufferedCopy,
}

/// The preferred, cheapest primitive for a mode.
pub fn preferred_strategy(mode: &MoveOrCopy) -> (r: Strategy)
    ensures
        r == (match mode {
            MoveOrCopy::Move => Strategy::Rename,
            MoveOrCopy::Copy => Strategy::Reflink,
        }),
{
    match mode {
        MoveOrCopy::Move => Strategy::Rename,
        MoveOrCopy::Copy => Strategy::Reflink,
    }
}

/// What follows a failed preferred primitive.
#[derive(Debug, Clone, Copy, PartialEq, Eq, Structural)]
pub enum LadderStep {
    /// A recognized, recovered condition: take the buffered-copy rung.
    FallBack,
    /// A fatal condition: abort, propagating the error unchanged.
    Abort,
}

/// Which step the ladder takes after the preferred primitive failed with
/// an error of the given class: recognized cross-device or unsupported
/// conditions are recovered, anything else is fatal.
pub fn next_step(class: OsErrorClass) -> (r: LadderStep)
    ensures
        r == (match class {
            OsErrorClass::Fatal => LadderStep::Abort,
            _ => LadderStep::FallBack,
        }),
{
    match class {
        OsErrorClass::CrossDeviceFallback => LadderStep::FallBack,
        OsErrorClass::UnsupportedPrimitive => LadderStep::FallBack,
        OsErrorClass::Fatal => LadderStep::Abort,
    }
}

} // verus!
