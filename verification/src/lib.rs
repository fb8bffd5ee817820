//! Line counting by file extension.
//!
//! The library aggregates per-file line counts into an ordered mapping from
//! file extension to total line count. Directory walking, file reading and
//! process handling are left to the binary around it; the library works on
//! plain names and file contents.

pub mod count;
pub mod counter;
pub mod order;
pub mod text;
