//! Append-only mail storage inside fixed-capacity byte buffers.
//!
//! A buffer holds a length-prefixed, self-describing encoding of two lists of
//! mails (an inbox and a sent list). The library encodes and decodes that
//! format, frames it into a buffer without ever growing it, and applies the
//! seed and append operations atomically per buffer.
pub mod error;
pub mod state;
pub mod processor;
pub mod instruction;
