//! Silence handling for multi-channel integer PCM audio.
//!
//! The crate locates silence at the edges and in the interior of decoded
//! sample buffers and produces trimmed and segmented buffers: a flat
//! interleaved stream is split into per-channel buffers, trailing silence is
//! trimmed, contiguous below-threshold runs are detected per channel,
//! reconciled across channels into one canonical timeline, filtered by
//! minimum-length policies, and the remaining audio is sliced into
//! exportable segments. Only integer PCM at 16, 24 or 32 bits is supported;
//! samples of every supported depth are carried in `i32`.
//!
//! Container decode/encode, directory traversal and argument handling are
//! outside collaborators: they hand this crate plain sample buffers and take
//! plain buffers back.

pub mod interleave;
pub mod merge;
pub mod naming;
pub mod pipeline;
pub mod sample;
pub mod segment;
pub mod silence;
pub mod trim;
