//! In-memory stand-ins for byte streams: a reader that serves a fixed number of
//! bytes by repeating its content, and a writer that discards what it is given
//! while counting bytes and calls.

pub mod streams;
