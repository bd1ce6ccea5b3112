//! Batches independent read-only contract calls into a single round trip
//! through an on-chain batching contract.
//!
//! Each queued call carries its own runtime function signature, which
//! drives the encoding of its arguments and the decoding of its reply
//! bytes; the builder wraps the queue into one outer request and unpacks
//! the one reply into per-call results, success and failure independent
//! per position.  The one network call itself is left to the caller: the
//! builder exposes the pure halves on either side of it.

pub mod batch;
pub mod builder;
pub mod codec;
pub mod sig;
pub mod values;
pub mod words;
