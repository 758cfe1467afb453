//! Verified core of a serial session manager: line reassembly of a byte
//! stream, the registry of open sessions, the decisions of the poll loop and
//! the normalisation of outgoing commands.

pub mod reassembler;
pub mod registry;
pub mod command;
