//! Plan annotation model: documents split into top-level blocks with
//! byte ranges, unified-diff splitting, and the diff overlay with its region verbs.

pub mod doc;
pub mod hunk;
pub mod linediff;
pub mod markdown;
pub mod overlay;
pub mod review;
pub mod screen;
pub mod source;
pub mod text;
