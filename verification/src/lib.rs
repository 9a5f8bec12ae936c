//! Random-access, lazily materialized line reading over a byte file.
//!
//! The library has two verified components. The [`store::Scanner`] streams a
//! file's bytes, in chunks of any size, through a small state machine that
//! records the byte offset of every line start, honouring all four common
//! line terminators (LF, CR, CRLF, LFCR), including terminators that straddle
//! two chunks. The [`store::Larry`] it produces owns the ordered offsets and
//! serves `len`, `offset` and span queries without further scanning; line
//! text is decoded and cached on first request.
//!
//! Reading the file itself is left to the caller: the caller feeds raw bytes
//! to the scanner and, for `text`, reads the span the store names and hands
//! the bytes back to be decoded and cached.

pub mod error;
pub mod grammar;
pub mod store;
mod text;
