//! Space-layout planner and storage-geometry descriptors for an embedded
//! database file: a superheader holding the database header and a region
//! tracker, followed by fixed-size regions of allocator-header pages plus
//! usable data pages.

pub mod error;
pub mod layout;
