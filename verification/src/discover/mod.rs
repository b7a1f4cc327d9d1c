//! Liteserver discovery: what a configuration tick decides about the set of known
//! liteservers, and which insertions and removals it announces.

pub mod server;
pub mod changes;
pub mod state;
pub mod laws;
