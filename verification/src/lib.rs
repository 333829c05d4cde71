//! Chunked object transfer over an append-only message channel.
//!
//! Files are split into bounded chunks, each chunk is transport-encoded and
//! appended as one message of a dedicated channel; retrieval drains the
//! channel's reverse-chronological pagination, restores chronological order,
//! decodes each attachment and reassembles the original bytes.  Progress is
//! reported through a single-subscriber bus.  All network and file I/O stays
//! outside this crate; the library holds the codec, the ordering rules, the
//! transfer state machines and the progress arithmetic.

use vstd::prelude::*;

pub mod codec;
pub mod naming;
pub mod progress;
pub mod records;
pub mod store;

verus! {

/// How a transfer can fail.  Every failure aborts only the transfer it
/// belongs to; nothing here is fatal to the surrounding process.
#[derive(Clone, Copy, Debug, PartialEq, Eq, Structural)]
pub enum StoreError {
    /// Creating the destination channel failed; nothing was written.
    ChannelCreateError,
    /// Posting a chunk message failed; earlier chunks stay in the channel.
    TransportPostError,
    /// Fetching attachment bytes failed; bytes already written remain.
    TransportFetchError,
    /// An encoded chunk did not decode: corrupted transport data.
    CodecError,
    /// A gap or duplicate in the sequence indices during reassembly.
    OrderError,
    /// Pagination ended before the first chunk was observed, so the oldest
    /// messages are missing: a short page read was mistaken for the end of
    /// the channel's history.
    CursorExhaustedEarly,
}

} // verus!
