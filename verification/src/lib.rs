//! Decoders for the binary containers written by a genome-assembly pipeline:
//! a read-sequence container (read lengths, masked sites, packed 2-bit bases,
//! packed names) and an overlap container (per-query blocks of fixed-width
//! overlap records), together with the text formatting of both.

use vstd::prelude::*;

pub mod bytes;
pub mod fmt;
pub mod meta;
pub mod ovl;
pub mod resource;
pub mod seq;

verus! {

/// Why a decode gave up. Every failure aborts the conversion; the kinds are
/// kept apart so a caller can report what was wrong with the container.
#[derive(Clone, Copy, Debug, PartialEq, Eq, Structural)]
pub enum DecodeError {
    /// A read asked for more bytes than the container holds.
    ContainerTruncated,
    /// The skip over the packed payload landed beyond the end of the file.
    SeekFailure,
    /// The name index table is decreasing or points past the name buffer.
    NameIndexInvalid,
    /// An overlap record carries a span whose end lies before its start.
    SpanInvalid,
}

} // verus!
