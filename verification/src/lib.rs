//! Verified client-side core of a small file-storage protocol.
//!
//! The library owns everything that can be stated and proved: the wire
//! codec for the two JSON shapes the server speaks (a listing of
//! `{id, name}` entries and a `{name, content}` envelope), the text
//! formatting of identifiers, URLs and reports, and the local rules for
//! file names.  The surrounding binary performs the HTTP requests and
//! the file reads and writes and hands plain values in and out.

pub mod codec;
pub mod digits;
pub mod entities;
pub mod ops;
pub mod strtext;
