//! Scanning of directory trees and reports over what was found.
pub mod path;
pub mod scan;
pub mod aggregate;
pub mod report;
pub mod tree;
pub mod walk;
