//! An append-mostly log store: text records are buffered, appended into
//! hourly rotated, zero-padded files, and read back over a time range.

pub mod config;
pub mod region;
pub mod codec;
pub mod record;
pub mod rotation;
pub mod export;
pub mod store;
pub mod retention;
pub mod naming;
