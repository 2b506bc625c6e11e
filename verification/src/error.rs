use vstd::prelude::*;

verus! {

/// Errors of the database layer: query errors and the failures of the
/// connection that carries the queries.
#[derive(Debug, PartialEq, Eq, Structural, Clone, Copy)]
pub enum MyError {
    TODO,
    SocketError,
    EventChannelClosed,
    SocketReadError,
    KeyNotFound,
    PathContainsPrimitiveValue,
    KeyAlreadyExists,
    MalformedCommand,
    NumberCantBeParsed,
    ArrayParseError,
}

/// Errors of the binary protocol and of the server that speaks it.
#[derive(Debug, PartialEq, Eq, Structural, Clone, Copy)]
pub enum AppError {
    SocketTerminated,
    PacketIsNotFinished,
    SocketReadError,
    SocketWriteError,
    InvalidCommandType,
    InvalidDataType,
    InvalidString,
    InvalidCaommdnForServer,
    SizeCalculationIsInvalid,
    GetError,
    ChannelWriteError,
    SetError,
}

/// The result of an operation of the binary protocol.
pub type AppResult<T> = Result<T, AppError>;

} // verus!
