//! The scoring request: a scanner for its JSON body.
pub mod json;
pub mod names;
pub mod payload;
pub mod section;
pub mod sheet;
pub mod tail;
pub mod written;
