//! A fixed-capacity first-fit allocator over one contiguous arena.
//!
//! The allocator never touches the bytes it hands out: it only keeps a table of
//! live blocks, a counter of free bytes and a journal of requested sizes, and
//! answers every request with an address inside `[base, base + CAP)`.

pub mod slot;
pub mod layout;
pub mod locator;
pub mod search;
pub mod error;
pub mod state;
pub mod alocator;
pub mod trace;
pub mod laws;
