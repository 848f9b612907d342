//! Command aliases for a message-driven runner: a validated tree of commands,
//! the resolution of incoming messages against it, and the chunking of
//! replies into transport-sized pieces.
pub mod command;
pub mod config;
pub mod loader;
pub mod text;
pub mod transport;
pub mod utils;
