use vstd::prelude::*;

verus! {

/// Error taxonomy of the service.
///
/// The first three are fatal at startup; `WriteError` and `ConnectionError`
/// are recoverable at connection scope and only ever close the one connection
/// they arose on; `AlreadyRegistered` rejects a second read handler on a
/// connection that already has one.
#[derive(Clone, Copy, Debug, PartialEq, Eq, Structural)]
pub enum EventError {
    /// Multiplexer allocation failed.
    InitError,
    /// Binding the listening handle failed.
    BindError,
    /// Registering the signal event failed.
    RegisterError,
    /// Appending to a connection's outbound queue failed.
    WriteError,
    /// An I/O error was reported on one connection.
    ConnectionError,
    /// A read handler was already set on the connection.
    AlreadyRegistered,
}

} // verus!
