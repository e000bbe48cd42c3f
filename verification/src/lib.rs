//! Checks for the code tables of the KeyTao (键道) input scheme for RIME.
//!
//! The library parses dictionary files into entries and runs the checks
//! over them; every check is a function from entries to the entries or codes
//! that it reports.

pub mod keytao;
pub mod text;
pub mod entry;
pub mod reader;
pub mod order;
pub mod groups;
pub mod chains;
pub mod checks;
pub mod hashing;
pub mod stems;
pub mod keys;
pub mod codesets;
pub mod shapes;
pub mod cli;
pub mod report;
pub mod alternate;
pub mod guards;
pub mod findings;
pub mod laws;
