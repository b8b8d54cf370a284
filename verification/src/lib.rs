//! Copy-on-write byte buffers, zero-copy slices over them, per-key storage
//! tier metadata, and a sorted entry map with an archive format that can be
//! read back either by materializing owned entries or by walking the
//! archived bytes in place.
//!
//! - [`cow_bytes`]: `CowBytes`, an immutable buffer whose clones share one
//!   allocation, and `SlicedCowBytes`, a view of a range of such a buffer.
//! - [`byte_order`]: the lexicographic order on byte strings.
//! - [`storage_preference`] and [`key_info`]: storage tiers, and the rule
//!   that reconciles the metadata of two layers.
//! - [`entry_map`]: a map from keys to metadata and payload in ascending key
//!   order.
//! - [`archive_format`]: the byte layout of an archived map and the laws
//!   that hold of it.
//! - [`archive`]: the writer, and the validated and unvalidated views that
//!   read an archive in place.
//! - [`paths`]: whole journeys of a record through an archive and back.
//! - [`dataset`]: the records that carry a map, and the data used to fill
//!   them for measurements.
//! - [`size`]: sizes of values whose written form has a fixed length.
//! - [`error`]: the conditions under which an operation is refused.

pub mod archive;
pub mod archive_format;
pub mod byte_order;
pub mod cow_bytes;
pub mod dataset;
pub mod entry_map;
pub mod error;
pub mod key_info;
pub mod paths;
pub mod size;
pub mod storage_preference;
