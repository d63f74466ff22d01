use vstd::prelude::*;

verus! {

/// Every failure the protocol engine can report.
#[derive(Debug, Clone, Copy, PartialEq, Eq, Structural)]
pub enum Errors {
    /// The sink is full and could not be drained.
    MemoryFilledInterupt,
    /// A packet had no `#` after its payload.
    NotTerminated,
    /// The two checksum digits did not match the payload.
    InvalidChecksum,
    /// A packet did not start with `$`, `+` or `-`.
    UnexpectedIntroduction,
    /// The target refused a command.
    CommandError,
    OutOfDataError,
    /// An argument was not a hex number.
    BadNumber,
    /// A command lacked one of its arguments.
    InsufficientArguments,
    /// A memory range fell outside the target.
    AddressOutOfRange,
    /// A data block did not have the size that was announced.
    LengthMismatch,
}

} // verus!
