//! BBF: a container file format that bundles many image-like binary assets
//! into one file, deduplicating identical content, organizing pages into
//! named sections, attaching key/value metadata, and detecting tampering.
//!
//! The crate is organised as:
//! - [`layout`]: the fixed little-endian binary schema (header, footer, the
//!   four fixed-width record tables) and its proven encode/decode functions;
//! - [`builder`]: a one-shot, append-only encoder with content-addressed
//!   deduplication and string interning;
//! - [`reader`]: a validating decoder with overflow-safe bounds checks;
//! - [`planner`]: the assembly algorithm that orders loose inputs and
//!   resolves section and metadata directives into builder calls;
//! - [`bindings`]: a consumed-once builder slot and an owned reader, for
//!   host layers that cannot express ownership transfer;
//! - [`laws`]: the proved format-level guarantees (round-trip, dedup
//!   idempotence, tamper isolation).

pub mod bindings;
pub mod builder;
pub mod hashing;
pub mod laws;
pub mod layout;
pub mod planner;
pub mod reader;
pub mod text;

pub use builder::BBFBuilder;
pub use layout::BBFMediaType;
pub use reader::BBFReader;
