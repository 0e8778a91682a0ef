//! Finds videos that are copies, re-encodes, cuts or near copies of one another.

pub mod audio;
pub mod big;
pub mod bounds;
pub mod cache;
pub mod compare;
pub mod decimal;
pub mod double;
pub mod entry;
pub mod float;
pub mod gui;
pub mod json;
pub mod lists;
pub mod metadata;
pub mod number;
pub mod paths;
pub mod scan;
pub mod single;
pub mod tally;
pub mod text;
pub mod thumbnail;
pub mod visual;
