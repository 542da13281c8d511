//! A reverse proxy core whose listening sockets survive a restart: the
//! listener table, the handoff wire format, the shutdown state machine and
//! the per-request dispatch decisions, each with a verified contract.

pub mod cli;
pub mod registry;
pub mod handoff;
pub mod shutdown;
pub mod proxy;
