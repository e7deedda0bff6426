//! Core of a media-publishing pipeline: content identifiers, a chunked
//! authenticated-encryption codec, a resumable (tus) upload client and the
//! task queue with its progress store.
pub mod encoding;
pub mod cid;
pub mod cipher;
pub mod text;
pub mod tus;
pub mod progress;
pub mod queue;
pub mod pipeline;
