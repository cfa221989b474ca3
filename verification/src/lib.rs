//! A single-process TCP echo service core, built as a reactor-style event
//! dispatcher: a connection listener, per-connection buffered sockets, a
//! signal-driven graceful shutdown path, and a resource ledger that accounts
//! for every OS handle and callback context from registration to release.
//!
//! The crate holds the decision logic of the service: what each readiness,
//! signal, or timer delivery does to the reactor state, and what the caller
//! that performs the actual I/O must do next. The blocking dispatch call and
//! the socket system calls themselves live outside, in the thin program that
//! drives this core.

pub mod buffer;
pub mod errors;
pub mod handles;
pub mod socket;
pub mod event_loop;
pub mod server;
