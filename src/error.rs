//! Errors of the wire protocol and of the node's logic.
use vstd::prelude::*;

verus! {

/// What can go wrong while encoding, framing or decoding a message.
#[derive(Debug, Clone, Copy, PartialEq, Eq, Structural)]
pub enum ErrorMessage {
    ErrorInSerialization,
    ErrorInDeserialization,
    WrongMagic,
    CorruptPayload,
    OversizedMessage,
    ProtocolViolation,
    NodeNotResponding,
}

/// Why a header was not admitted to the chain.
#[derive(Debug, Clone, Copy, PartialEq, Eq, Structural)]
pub enum ErrorBlock {
    /// The header's `previous` is not a header of the chain.
    UnknownPrevious,
    /// The header's hash is above its target, or its target is not valid.
    InsufficientProofOfWork,
    /// The header's timestamp is not above the median of the 11 before it on its branch.
    TimestampTooOld,
    /// The cumulative work no longer fits the 128-bit accumulator.
    WorkOverflow,
}

/// Why an exchange with a peer failed.
#[derive(Debug, Clone, Copy, PartialEq, Eq, Structural)]
pub enum ErrorNode {
    /// The peer sent nothing usable: no frame of the awaited kind, or bytes that do not decode.
    NodeNotResponding(ErrorMessage),
    /// The peer's headers were refused by the chain.
    WhileValidating(ErrorBlock),
    /// A message could not be built.
    WhileSerializing(ErrorMessage),
}

/// Why the wallet refused a command.
#[derive(Debug, Clone, Copy, PartialEq, Eq, Structural)]
pub enum ErrorWallet {
    /// The outputs it holds do not cover the amount and the fee.
    InsufficientFunds,
    /// An amount does not fit the wire's signed 64-bit value.
    InvalidAmount,
}

} // verus!
