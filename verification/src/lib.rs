//! A catalogue of installed applications and the file extensions they can
//! open, with the rules for choosing and reassigning default handlers.

pub mod db;
pub mod laws;
pub mod model;
pub mod plist;
pub mod rows;
pub mod scan;
pub mod sort;
pub mod sums;
pub mod text;
mod query;
mod tables;
