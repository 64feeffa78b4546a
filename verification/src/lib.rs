//! An in-memory model of a block device's partition table.
//!
//! Partition entries live in an [`Arena`] and are shared by reference count
//! between detached [`Table`]s. A [`Context`] owns the active [`DiskLabel`]
//! of a device and merges a table into it in one step that stores all of the
//! table or nothing. Reading a label from a device and writing it back are
//! left to the caller.

pub mod context;
pub mod error;
pub mod label;
pub mod merge;
pub mod merge_lemmas;
pub mod partition;
pub mod sharing;
pub mod table;

pub use context::Context;
pub use error::Error;
pub use label::{DiskLabel, Geometry, LabelFormat};
pub use partition::{Arena, Partition, PartitionData};
pub use table::Table;
