//! Placement map for binary images located inside a flash dump.
//!
//! Address intervals (pieces) are packed incrementally into parallel,
//! non-overlapping tracks by greedy column reuse, and the packing is
//! rendered as a box-drawing diagram with a colored legend.

pub mod corner;
pub mod dynzip;
pub mod error;
pub mod flash_img_seeker;
pub mod laws;
pub mod numfmt;
pub mod parray;
pub mod puzzle;
pub mod slot;
