//! An engine for grouping and linking entries that live inside one or more
//! independently-indexed interval buffers.
//!
//! A [`MultiVector`] owns a set of named, fixed-capacity buffers. Each buffer
//! stores non-overlapping, variably-sized entries addressed by integer offset.
//! Entries inserted together form a group: every member carries the ordered
//! list of coordinates of all its siblings, so that querying or removing any
//! one member retrieves or removes the whole group, while a member can still
//! be detached ("unlinked") from its group without disturbing the rest.

pub mod entry;
pub mod laws;
pub mod model;
pub mod registry;
pub mod store;

pub use entry::Coordinate;
pub use entry::CoordSpec;
pub use entry::EntrySpec;
pub use entry::MultiEntry;
pub use entry::MultiEntrySpec;
pub use registry::MultiVector;
pub use registry::MultiVectorError;
