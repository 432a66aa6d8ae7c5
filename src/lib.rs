//! Finds stale build and dependency-cache directories in a directory tree
//! and measures what removing them would reclaim.

pub mod paths;
pub mod scanner;
pub mod order;
pub mod kinds;
pub mod cleaner;
pub mod selection;
