//! A verified to-do task store: an in-memory list of tasks with monotonically
//! assigned identifiers, four mutators (add, edit, delete, mark-complete),
//! and a human-readable text serialization with a proved round trip.

pub mod codec;
pub mod shell;
pub mod store;
