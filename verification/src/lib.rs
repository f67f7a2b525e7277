//! A small interactive shell: a read-interpret-execute loop with a handful of
//! built-ins, an optional fallback execution mode, and an append-only history
//! log kept as one CSV file under the user's home directory.
//!
//! This crate holds the verified core: how a submitted line is classified and
//! turned into effects, and how a history entry is serialized for the log.
//! Reading the terminal, spawning processes and touching the filesystem are
//! left to the thin program around it, which feeds plain values in and carries
//! the returned effects out.
pub mod digits;
pub mod history;
pub mod repl;
pub mod text;
pub mod timestamp;
