//! Patching of a query genome assembly against a reference assembly.
//!
//! The library decides, for every aligned stretch of a query contig, whether the
//! output takes its bases from the query or from the reference, and keeps the
//! bookkeeping of the resulting segments. All coordinates are 0-based and
//! half-open.

pub mod align;
pub mod bed;
pub mod boundary;
pub mod consensus;
pub mod interval;
pub mod output;
pub mod runs;
pub mod segment;
