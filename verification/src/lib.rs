//! In-place parser and navigator for a compact, offset-addressed binary
//! device-tree blob handed to an early bootloader by firmware.
//!
//! The blob is a byte region of trusted maximum size; every node and
//! property boundary is derived from untrusted in-blob length fields, so
//! each traversal step validates alignment and bounds before any byte is
//! read. All public operations either return a typed error or a value
//! whose backing bytes are provably inside the blob.

pub mod model;
pub mod lemmas;
pub mod tree;
pub mod typed;
pub mod laws;

pub use model::AdtError;
pub use model::MAX_SIZE;
pub use tree::ADT;
pub use tree::ADTNodeHeader;
pub use tree::ADTProperty;
pub use tree::ADTSegmentRanges;
