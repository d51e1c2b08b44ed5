//! Presence tracking for the devices of the local network segment.
//!
//! The neighbour tables of the host are read as text, turned into device
//! records, and successive sets of records are compared to tell when a
//! device appears and when it has been absent for too long.

pub mod clock;
pub mod device;
pub mod parser;
pub mod presence;
pub mod reader;
pub mod report;
pub mod snapshot;
pub mod text;
pub mod tracker;
pub mod vendor;
