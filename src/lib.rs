//! A crash-recoverable, append-only log of replicated entries: the binary
//! record codec and the recovery, append and replay logic of the log store.
pub mod codec;
pub mod entry;
pub mod store;
